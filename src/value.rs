use vstd::prelude::*;

verus! {

/// A value that an entity field can hold.
///
/// Big integers and decimals are held in their canonical decimal text.
#[derive(Debug, PartialEq)]
pub enum Value {
    Null,
    Bool(bool),
    Int(i32),
    BigInt(String),
    BigDecimal(String),
    String(String),
    Bytes(Vec<u8>),
    List(Vec<Value>),
}

/// The character of a decimal digit.
pub open spec fn digit_char(d: nat) -> char {
    if d == 0 { '0' } else if d == 1 { '1' } else if d == 2 { '2' } else if d == 3 { '3' }
    else if d == 4 { '4' } else if d == 5 { '5' } else if d == 6 { '6' } else if d == 7 { '7' }
    else if d == 8 { '8' } else { '9' }
}

/// The lower-case character of a hexadecimal digit.
pub open spec fn hex_char(d: nat) -> char {
    if d < 10 { digit_char(d) } else if d == 10 { 'a' } else if d == 11 { 'b' }
    else if d == 12 { 'c' } else if d == 13 { 'd' } else if d == 14 { 'e' } else { 'f' }
}

/// The decimal digits of a natural number, without leading zeros.
pub open spec fn decimal(n: nat) -> Seq<char>
    decreases n,
{
    if n < 10 {
        seq![digit_char(n)]
    } else {
        decimal(n / 10).push(digit_char(n % 10))
    }
}

/// The decimal text of an integer, with a leading `-` when negative.
pub open spec fn int_text(i: int) -> Seq<char> {
    if i < 0 {
        seq!['-'] + decimal((-i) as nat)
    } else {
        decimal(i as nat)
    }
}

/// Two lower-case hexadecimal digits for each byte.
pub open spec fn hex_digits(b: Seq<u8>) -> Seq<char>
    decreases b.len(),
{
    if b.len() == 0 {
        seq![]
    } else {
        hex_digits(b.drop_last()) + seq![hex_char((b.last() / 16) as nat), hex_char((b.last() % 16) as nat)]
    }
}

/// The canonical text of a value; the elements of a list are joined by `", "`
/// inside brackets, in their order.
pub open spec fn render(v: Value) -> Seq<char>
    decreases v,
{
    match v {
        Value::Null => seq!['n', 'u', 'l', 'l'],
        Value::Bool(b) => if b { seq!['t', 'r', 'u', 'e'] } else { seq!['f', 'a', 'l', 's', 'e'] },
        Value::Int(i) => int_text(i as int),
        Value::BigInt(s) => s@,
        Value::BigDecimal(s) => s@,
        Value::String(s) => s@,
        Value::Bytes(b) => seq!['0', 'x'] + hex_digits(b@),
        Value::List(vs) => seq!['['] + render_items(vs, vs@.len() as int) + seq![']'],
    }
}

/// The text of the first `n` elements of a list, separated by `", "`.
pub open spec fn render_items(vs: Vec<Value>, n: int) -> Seq<char>
    decreases vs, n,
{
    if n <= 0 || n > vs@.len() {
        seq![]
    } else if n == 1 {
        render(vs@[0])
    } else {
        render_items(vs, n - 1) + seq![',', ' '] + render(vs@[n - 1])
    }
}

/// Whether two texts hold the same characters.
pub fn same_text(a: &str, b: &str) -> (r: bool)
    ensures
        r == (a@ == b@),
{
    let x = String::from_str(a);
    let y = String::from_str(b);
    x == y
}

pub(crate) fn digit_str(d: u32) -> (r: &'static str)
    requires
        d < 16,
    ensures
        r@ == seq![hex_char(d as nat)],
{
    proof {
        reveal_strlit("0"); reveal_strlit("1"); reveal_strlit("2"); reveal_strlit("3");
        reveal_strlit("4"); reveal_strlit("5"); reveal_strlit("6"); reveal_strlit("7");
        reveal_strlit("8"); reveal_strlit("9"); reveal_strlit("a"); reveal_strlit("b");
        reveal_strlit("c"); reveal_strlit("d"); reveal_strlit("e"); reveal_strlit("f");
    }
    match d {
        0 => "0", 1 => "1", 2 => "2", 3 => "3", 4 => "4", 5 => "5", 6 => "6", 7 => "7",
        8 => "8", 9 => "9", 10 => "a", 11 => "b", 12 => "c", 13 => "d", 14 => "e", _ => "f",
    }
}

fn push_decimal(n: u32, out: &mut String)
    ensures
        final(out)@ == old(out)@ + decimal(n as nat),
    decreases n,
{
    if n >= 10 {
        push_decimal(n / 10, out);
    }
    out.append(digit_str(n % 10));
    proof {
        if n >= 10 {
            assert(decimal(n as nat) == decimal((n / 10) as nat).push(digit_char((n % 10) as nat)));
        }
    }
}

pub(crate) fn push_hex(b: &[u8], out: &mut String)
    ensures
        final(out)@ == old(out)@ + hex_digits(b@),
{
    let mut i: usize = 0;
    while i < b.len()
        invariant
            i <= b@.len(),
            out@ == old(out)@ + hex_digits(b@.take(i as int)),
        decreases b@.len() - i,
    {
        let x = b[i];
        out.append(digit_str((x / 16) as u32));
        out.append(digit_str((x % 16) as u32));
        proof {
            let t = b@.take(i as int + 1);
            assert(t.drop_last() =~= b@.take(i as int));
        }
        i = i + 1;
    }
    assert(b@.take(b@.len() as int) =~= b@);
}

impl Value {
    /// The canonical text of this value.
    pub fn render(&self) -> (r: String)
        ensures
            r@ == render(*self),
    {
        let mut out = String::new();
        self.render_into(&mut out);
        out
    }

    fn render_into(&self, out: &mut String)
        ensures
            final(out)@ == old(out)@ + render(*self),
        decreases self, 0nat,
    {
        proof {
            reveal_strlit("null"); reveal_strlit("true"); reveal_strlit("false");
            reveal_strlit("-"); reveal_strlit("0x"); reveal_strlit("[");
            reveal_strlit("]"); reveal_strlit(", ");
        }
        match self {
            Value::Null => out.append("null"),
            Value::Bool(b) => if *b { out.append("true") } else { out.append("false") },
            Value::Int(i) => {
                if *i < 0 {
                    out.append("-");
                    push_decimal((-(*i as i64)) as u32, out);
                } else {
                    push_decimal(*i as u32, out);
                }
            },
            Value::BigInt(s) => out.append(s.as_str()),
            Value::BigDecimal(s) => out.append(s.as_str()),
            Value::String(s) => out.append(s.as_str()),
            Value::Bytes(b) => {
                out.append("0x");
                push_hex(b.as_slice(), out);
            },
            Value::List(vs) => {
                out.append("[");
                assert(decreases_to!(*self => *vs));
                let ghost start = out@;
                let mut i: usize = 0;
                while i < vs.len()
                    invariant
                        i <= vs@.len(),
                        *self == Value::List(*vs),
                        decreases_to!(*self => *vs),
                        out@ == start + render_items(*vs, i as int),
                    decreases vs@.len() - i,
                {
                    proof {
                        vstd::std_specs::vec::axiom_vec_index_decreases(*vs, i as int);
                        assert(decreases_to!(*self => vs[i as int]));
                    }
                    let ghost before = out@;
                    if i > 0 {
                        out.append(", ");
                        proof { reveal_strlit(", "); }
                        assert(out@ =~= before + seq![',', ' ']);
                    }
                    let ghost mid = out@;
                    vs[i].render_into(out);
                    assert(out@ == mid + render(vs@[i as int]));
                    proof {
                        if i == 0 {
                            assert(render_items(*vs, 0) =~= Seq::<char>::empty());
                            assert(out@ =~= start + render_items(*vs, 1));
                        } else {
                            assert(render_items(*vs, i + 1) == render_items(*vs, i as int) + seq![',', ' '] + render(vs@[i as int]));
                            assert(out@ =~= start + render_items(*vs, i + 1));
                        }
                    }
                    i = i + 1;
                }
                out.append("]");
            },
        }
    }
}

} // verus!
