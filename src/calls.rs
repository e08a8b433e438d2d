use vstd::prelude::*;

use ethabi::param_type::Reader;
use ethabi::ParamType;

use crate::record::{find_field, get_field, put_field};
use crate::value::{digit_str, hex_char, hex_digits, push_hex, same_text};

verus! {

/// A value handed to or returned from a contract call, as plain data.
#[derive(Debug, PartialEq)]
pub enum CallValue {
    Address([u8; 20]),
    FixedBytes(Vec<u8>),
    Bytes(Vec<u8>),
    /// A 256-bit signed integer, as four little-endian 64-bit words.
    Int([u64; 4]),
    /// A 256-bit unsigned integer, as four little-endian 64-bit words.
    Uint([u64; 4]),
    Bool(bool),
    String(String),
    FixedArray(Vec<CallValue>),
    Array(Vec<CallValue>),
    Tuple(Vec<CallValue>),
}

/// Nibble `k` of a word, counting from the most significant.
pub open spec fn nibble(w: u64, k: int) -> nat {
    ((w >> ((60 - 4 * k) as u64)) & 15u64) as nat
}

/// The 64 nibbles of a 256-bit integer held as four little-endian words, most
/// significant first.
pub open spec fn word_nibbles(ws: Seq<u64>) -> Seq<nat> {
    Seq::new(64, |p: int| nibble(ws[3 - p / 16], p % 16))
}

/// A nibble sequence without its leading zeros.
pub open spec fn drop_zeros(s: Seq<nat>) -> Seq<nat>
    decreases s.len(),
{
    if s.len() == 0 {
        s
    } else if s[0] == 0 {
        drop_zeros(s.skip(1))
    } else {
        s
    }
}

/// Lower-case hexadecimal without leading zeros; `0` for zero.
pub open spec fn int_hex(ws: Seq<u64>) -> Seq<char> {
    let d = drop_zeros(word_nibbles(ws));
    if d.len() == 0 { seq!['0'] } else { d.map_values(|n: nat| hex_char(n)) }
}

/// The text that ethabi's `Token` display gives a call value: `true` or
/// `false`, the string itself, the bytes of an address or byte string in
/// lower-case hexadecimal, an integer's word in hexadecimal without leading
/// zeros, and the elements of arrays in brackets and of tuples in parentheses,
/// separated by commas.
pub open spec fn call_text(v: CallValue) -> Seq<char>
    decreases v, 0int,
{
    match v {
        CallValue::Bool(b) => if b { seq!['t', 'r', 'u', 'e'] } else { seq!['f', 'a', 'l', 's', 'e'] },
        CallValue::String(s) => s@,
        CallValue::Address(a) => hex_digits(a@),
        CallValue::Bytes(b) => hex_digits(b@),
        CallValue::FixedBytes(b) => hex_digits(b@),
        CallValue::Int(w) => int_hex(w@),
        CallValue::Uint(w) => int_hex(w@),
        CallValue::Array(vs) => seq!['['] + joined(vs, vs@.len() as int) + seq![']'],
        CallValue::FixedArray(vs) => seq!['['] + joined(vs, vs@.len() as int) + seq![']'],
        CallValue::Tuple(vs) => seq!['('] + joined(vs, vs@.len() as int) + seq![')'],
    }
}

/// The texts of the first `n` elements, separated by commas.
pub open spec fn joined(vs: Vec<CallValue>, n: int) -> Seq<char>
    decreases vs, n,
{
    if n <= 0 || n > vs@.len() {
        seq![]
    } else if n == 1 {
        call_text(vs@[0])
    } else {
        joined(vs, n - 1) + seq![','] + call_text(vs@[n - 1])
    }
}

proof fn lemma_drop_zeros_push(s: Seq<nat>, n: nat)
    ensures
        drop_zeros(s.push(n)) == if drop_zeros(s).len() == 0 && n == 0 { seq![] } else { drop_zeros(s).push(n) },
    decreases s.len(),
{
    assert(s.push(n).len() > 0);
    if s.len() == 0 {
        assert(s.push(n).skip(1) =~= Seq::<nat>::empty());
        assert(s.push(n)[0] == n);
        assert(drop_zeros(s) =~= s);
        if n == 0 {
            assert(drop_zeros(s.push(n)) == drop_zeros(s.push(n).skip(1)));
        }
    } else if s[0] == 0 {
        assert(s.push(n)[0] == 0);
        assert(s.push(n).skip(1) =~= s.skip(1).push(n));
        lemma_drop_zeros_push(s.skip(1), n);
    } else {
        assert(s.push(n)[0] == s[0]);
    }
}

fn push_int_hex(ws: &[u64; 4], out: &mut String)
    ensures
        final(out)@ == old(out)@ + int_hex(ws@),
{
    let ghost start = out@;
    let ghost all = word_nibbles(ws@);
    let mut latch = false;
    let mut p: u64 = 0;
    while p < 64
        invariant
            p <= 64,
            ws@.len() == 4,
            all == word_nibbles(ws@),
            latch <==> drop_zeros(all.take(p as int)).len() > 0,
            out@ == start + drop_zeros(all.take(p as int)).map_values(|n: nat| hex_char(n)),
        decreases 64 - p,
    {
        let w = ws[(3 - p / 16) as usize];
        let k = p % 16;
        let sh: u64 = 60 - 4 * k;
        let n = (w >> sh) & 15u64;
        proof {
            assert(all.take(p + 1) =~= all.take(p as int).push(all[p as int]));
            assert(all[p as int] == nibble(ws@[3 - p / 16], (p % 16) as int));
            assert(n as nat == all[p as int]);
            lemma_drop_zeros_push(all.take(p as int), n as nat);
            assert(((w >> sh) & 15u64) < 16u64) by (bit_vector);
        }
        if latch || n != 0 {
            latch = true;
            let ghost before = out@;
            out.append(digit_str(n as u32));
            proof {
                let d = drop_zeros(all.take(p as int));
                assert(d.push(n as nat).map_values(|m: nat| hex_char(m)) =~= d.map_values(|m: nat| hex_char(m)).push(hex_char(n as nat)));
                assert(out@ =~= start + d.push(n as nat).map_values(|m: nat| hex_char(m)));
            }
        }
        p = p + 1;
    }
    assert(all.take(64) =~= all);
    if !latch {
        proof { reveal_strlit("0"); }
        out.append("0");
        assert(out@ =~= start + seq!['0']);
    }
}

fn push_joined(vs: &Vec<CallValue>, out: &mut String)
    ensures
        final(out)@ == old(out)@ + joined(*vs, vs@.len() as int),
    decreases vs, 1int,
{
    let ghost start = out@;
    let mut i: usize = 0;
    while i < vs.len()
        invariant
            i <= vs@.len(),
            out@ == start + joined(*vs, i as int),
        decreases vs@.len() - i,
    {
        proof { vstd::std_specs::vec::axiom_vec_index_decreases(*vs, i as int); }
        let ghost before = out@;
        if i > 0 {
            proof { reveal_strlit(","); }
            out.append(",");
            assert(out@ =~= before + seq![',']);
        }
        let ghost mid = out@;
        push_call_text(&vs[i], out);
        proof {
            if i == 0 {
                assert(joined(*vs, 0) =~= Seq::<char>::empty());
                assert(out@ =~= start + joined(*vs, 1));
            } else {
                assert(joined(*vs, i + 1) == joined(*vs, i as int) + seq![','] + call_text(vs@[i as int]));
                assert(out@ =~= start + joined(*vs, i + 1));
            }
        }
        i = i + 1;
    }
}

/// Appends the text of a call value.
fn push_call_text(v: &CallValue, out: &mut String)
    ensures
        final(out)@ == old(out)@ + call_text(*v),
    decreases v, 0int,
{
    proof {
        reveal_strlit("true"); reveal_strlit("false"); reveal_strlit("["); reveal_strlit("]");
        reveal_strlit("("); reveal_strlit(")");
    }
    match v {
        CallValue::Bool(b) => if *b { out.append("true") } else { out.append("false") },
        CallValue::String(s) => out.append(s.as_str()),
        CallValue::Address(a) => push_hex(a.as_slice(), out),
        CallValue::Bytes(b) => push_hex(b.as_slice(), out),
        CallValue::FixedBytes(b) => push_hex(b.as_slice(), out),
        CallValue::Int(w) => push_int_hex(w, out),
        CallValue::Uint(w) => push_int_hex(w, out),
        CallValue::Array(vs) | CallValue::FixedArray(vs) => {
            let ghost before = out@;
            out.append("[");
            push_joined(vs, out);
            out.append("]");
            assert(out@ =~= before + call_text(*v));
        },
        CallValue::Tuple(vs) => {
            let ghost before = out@;
            out.append("(");
            push_joined(vs, out);
            out.append(")");
            assert(out@ =~= before + call_text(*v));
        },
    }
}

/// The text of a call value, as ethabi displays the value.
pub fn token_text(v: &CallValue) -> (r: String)
    ensures
        r@ == call_text(*v),
{
    let mut out = String::new();
    push_call_text(v, &mut out);
    out
}

/// A declared parameter type, as ethabi's reader gives it.
#[derive(Debug, PartialEq)]
pub enum AbiType {
    Address,
    Bytes,
    Int(usize),
    Uint(usize),
    Bool,
    String,
    Array(Box<AbiType>),
    FixedBytes(usize),
    FixedArray(Box<AbiType>, usize),
    Tuple(Vec<AbiType>),
}

#[verifier::external_type_specification]
#[verifier::external_body]
pub struct ExParamType(ParamType);

/// What ethabi's `Reader::read` gives for a declared type text: `None` where
/// it refuses the text.
pub uninterp spec fn read_type(ty: Seq<char>) -> Option<AbiType>;

/// Converts ethabi's `ParamType` to an `AbiType`, one variant for one.
#[verifier::external_body]
fn from_param_type(p: &ParamType) -> AbiType {
    match p {
        ParamType::Address => AbiType::Address,
        ParamType::Bytes => AbiType::Bytes,
        ParamType::Int(n) => AbiType::Int(*n),
        ParamType::Uint(n) => AbiType::Uint(*n),
        ParamType::Bool => AbiType::Bool,
        ParamType::String => AbiType::String,
        ParamType::Array(t) => AbiType::Array(Box::new(from_param_type(t))),
        ParamType::FixedBytes(n) => AbiType::FixedBytes(*n),
        ParamType::FixedArray(t, n) => AbiType::FixedArray(Box::new(from_param_type(t)), *n),
        ParamType::Tuple(ts) => AbiType::Tuple(ts.iter().map(from_param_type).collect()),
    }
}

/// Relies on ethabi's `Reader::read`: parses a declared type such as
/// `uint256`, `address[]` or `(bool,string)`. It slices by character counts
/// and reads the digits before a final `]` as a fixed array size; ASCII text
/// in which each `]` closes a `[` of digits keeps both in range.
#[verifier::external_body]
fn parse_type(ty: &str) -> (r: Option<AbiType>)
    requires
        type_text_safe(ty@),
    ensures
        r == read_type(ty@),
{
    Reader::read(ty).ok().map(|p| from_param_type(&p))
}

/// Whether a value has the shape of a declared type: the same kind, a fixed
/// byte string no longer than declared, and arrays and tuples whose elements
/// match, a fixed array or a tuple with exactly the declared length.
pub open spec fn type_matches(v: CallValue, t: AbiType) -> bool
    decreases v, 0int,
{
    match v {
        CallValue::Address(_) => t is Address,
        CallValue::FixedBytes(b) => t is FixedBytes && b@.len() <= t->FixedBytes_0,
        CallValue::Bytes(_) => t is Bytes,
        CallValue::Int(_) => t is Int,
        CallValue::Uint(_) => t is Uint,
        CallValue::Bool(_) => t is Bool,
        CallValue::String(_) => t is String,
        CallValue::Array(vs) => t is Array && all_match(vs, *t->Array_0, vs@.len() as int),
        CallValue::FixedArray(vs) => t is FixedArray && t->FixedArray_1 == vs@.len()
            && all_match(vs, *t->FixedArray_0, vs@.len() as int),
        CallValue::Tuple(vs) => t is Tuple && t->Tuple_0@.len() == vs@.len()
            && each_match(vs, t->Tuple_0, vs@.len() as int),
    }
}

/// Whether the first `n` elements of `vs` match `t`.
pub open spec fn all_match(vs: Vec<CallValue>, t: AbiType, n: int) -> bool
    decreases vs, n,
{
    if n <= 0 || n > vs@.len() {
        true
    } else {
        all_match(vs, t, n - 1) && type_matches(vs@[n - 1], t)
    }
}

/// Whether the first `n` elements of `vs` match the types `ts` one for one.
pub open spec fn each_match(vs: Vec<CallValue>, ts: Vec<AbiType>, n: int) -> bool
    decreases vs, n,
{
    if n <= 0 || n > vs@.len() || n > ts@.len() {
        true
    } else {
        each_match(vs, ts, n - 1) && type_matches(vs@[n - 1], ts@[n - 1])
    }
}

proof fn lemma_all_match_prefix(vs: Vec<CallValue>, t: AbiType, n: int, m: int)
    requires
        0 <= m <= n <= vs@.len(),
        all_match(vs, t, n),
    ensures
        all_match(vs, t, m),
    decreases n,
{
    if m < n {
        lemma_all_match_prefix(vs, t, n - 1, m);
    }
}

proof fn lemma_each_match_prefix(vs: Vec<CallValue>, ts: Vec<AbiType>, n: int, m: int)
    requires
        0 <= m <= n <= vs@.len(),
        n <= ts@.len(),
        each_match(vs, ts, n),
    ensures
        each_match(vs, ts, m),
    decreases n,
{
    if m < n {
        lemma_each_match_prefix(vs, ts, n - 1, m);
    }
}

/// Whether a value has the shape of a declared type.
pub fn value_matches_type(v: &CallValue, t: &AbiType) -> (r: bool)
    ensures
        r == type_matches(*v, *t),
    decreases v,
{
    match v {
        CallValue::Address(_) => matches!(t, AbiType::Address),
        CallValue::FixedBytes(b) => match t {
            AbiType::FixedBytes(n) => b.len() <= *n,
            _ => false,
        },
        CallValue::Bytes(_) => matches!(t, AbiType::Bytes),
        CallValue::Int(_) => matches!(t, AbiType::Int(_)),
        CallValue::Uint(_) => matches!(t, AbiType::Uint(_)),
        CallValue::Bool(_) => matches!(t, AbiType::Bool),
        CallValue::String(_) => matches!(t, AbiType::String),
        CallValue::Array(vs) | CallValue::FixedArray(vs) => {
            let inner: &AbiType = match t {
                AbiType::Array(inner) => {
                    if !matches!(v, CallValue::Array(_)) {
                        return false;
                    }
                    inner
                },
                AbiType::FixedArray(inner, n) => {
                    if !matches!(v, CallValue::FixedArray(_)) || *n != vs.len() {
                        return false;
                    }
                    inner
                },
                _ => {
                    return false;
                },
            };
            let mut i: usize = 0;
            while i < vs.len()
                invariant
                    *v == CallValue::Array(*vs) || *v == CallValue::FixedArray(*vs),
                    decreases_to!(*v => *vs),
                    (*v is Array && *t is Array && *inner == *t->Array_0)
                        || (*v is FixedArray && *t is FixedArray && *inner == *t->FixedArray_0 && t->FixedArray_1 == vs@.len()),
                    i <= vs@.len(),
                    all_match(*vs, *inner, i as int),
                decreases vs@.len() - i,
            {
                proof {
                    vstd::std_specs::vec::axiom_vec_index_decreases(*vs, i as int);
                    assert(decreases_to!(*v => vs[i as int]));
                }
                if !value_matches_type(&vs[i], inner) {
                    proof {
                        if all_match(*vs, *inner, vs@.len() as int) {
                            lemma_all_match_prefix(*vs, *inner, vs@.len() as int, i + 1);
                        }
                    }
                    return false;
                }
                i = i + 1;
            }
            true
        },
        CallValue::Tuple(vs) => {
            let ts = match t {
                AbiType::Tuple(ts) => ts,
                _ => {
                    return false;
                },
            };
            if ts.len() != vs.len() {
                return false;
            }
            let mut i: usize = 0;
            while i < vs.len()
                invariant
                    *v == CallValue::Tuple(*vs),
                    *t == AbiType::Tuple(*ts),
                    decreases_to!(*v => *vs),
                    ts@.len() == vs@.len(),
                    i <= vs@.len(),
                    each_match(*vs, *ts, i as int),
                decreases vs@.len() - i,
            {
                proof {
                    vstd::std_specs::vec::axiom_vec_index_decreases(*vs, i as int);
                    assert(decreases_to!(*v => vs[i as int]));
                }
                if !value_matches_type(&vs[i], &ts[i]) {
                    proof {
                        if each_match(*vs, *ts, vs@.len() as int) {
                            lemma_each_match_prefix(*vs, *ts, vs@.len() as int, i + 1);
                        }
                    }
                    return false;
                }
                i = i + 1;
            }
            true
        },
    }
}

/// Whether two call values are the same value: the same kind with the same
/// contents, element by element.
pub open spec fn same_value(a: CallValue, b: CallValue) -> bool
    decreases a, 0int,
{
    match a {
        CallValue::Address(x) => b is Address && x@ == b->Address_0@,
        CallValue::FixedBytes(x) => b is FixedBytes && x@ == b->FixedBytes_0@,
        CallValue::Bytes(x) => b is Bytes && x@ == b->Bytes_0@,
        CallValue::Int(x) => b is Int && x@ == b->Int_0@,
        CallValue::Uint(x) => b is Uint && x@ == b->Uint_0@,
        CallValue::Bool(x) => b is Bool && x == b->Bool_0,
        CallValue::String(x) => b is String && x@ == b->String_0@,
        CallValue::Array(xs) => b is Array && xs@.len() == b->Array_0@.len()
            && pairs_same(xs, b->Array_0, xs@.len() as int),
        CallValue::FixedArray(xs) => b is FixedArray && xs@.len() == b->FixedArray_0@.len()
            && pairs_same(xs, b->FixedArray_0, xs@.len() as int),
        CallValue::Tuple(xs) => b is Tuple && xs@.len() == b->Tuple_0@.len()
            && pairs_same(xs, b->Tuple_0, xs@.len() as int),
    }
}

/// Whether the first `n` elements of `xs` and `ys` are the same values.
pub open spec fn pairs_same(xs: Vec<CallValue>, ys: Vec<CallValue>, n: int) -> bool
    decreases xs, n,
{
    if n <= 0 || n > xs@.len() || n > ys@.len() {
        true
    } else {
        pairs_same(xs, ys, n - 1) && same_value(xs@[n - 1], ys@[n - 1])
    }
}

proof fn lemma_pairs_same_prefix(xs: Vec<CallValue>, ys: Vec<CallValue>, n: int, m: int)
    requires
        0 <= m <= n <= xs@.len(),
        n <= ys@.len(),
        pairs_same(xs, ys, n),
    ensures
        pairs_same(xs, ys, m),
    decreases n,
{
    if m < n {
        lemma_pairs_same_prefix(xs, ys, n - 1, m);
    }
}

fn same_bytes(a: &[u8], b: &[u8]) -> (r: bool)
    ensures
        r == (a@ == b@),
{
    if a.len() != b.len() {
        return false;
    }
    let mut i: usize = 0;
    while i < a.len()
        invariant
            a@.len() == b@.len(),
            i <= a@.len(),
            forall|j: int| 0 <= j < i ==> a@[j] == b@[j],
        decreases a@.len() - i,
    {
        if a[i] != b[i] {
            return false;
        }
        i = i + 1;
    }
    assert(a@ =~= b@);
    true
}

fn same_words(a: &[u64; 4], b: &[u64; 4]) -> (r: bool)
    ensures
        r == (a@ == b@),
{
    let mut i: usize = 0;
    while i < 4
        invariant
            a@.len() == 4 && b@.len() == 4,
            i <= 4,
            forall|j: int| 0 <= j < i ==> a@[j] == b@[j],
        decreases 4 - i,
    {
        if a[i] != b[i] {
            return false;
        }
        i = i + 1;
    }
    assert(a@ =~= b@);
    true
}

fn same_list(xs: &Vec<CallValue>, ys: &Vec<CallValue>) -> (r: bool)
    ensures
        r == (xs@.len() == ys@.len() && pairs_same(*xs, *ys, xs@.len() as int)),
    decreases xs, 1int,
{
    if xs.len() != ys.len() {
        return false;
    }
    let mut i: usize = 0;
    while i < xs.len()
        invariant
            xs@.len() == ys@.len(),
            i <= xs@.len(),
            pairs_same(*xs, *ys, i as int),
        decreases xs@.len() - i,
    {
        proof {
            vstd::std_specs::vec::axiom_vec_index_decreases(*xs, i as int);
        }
        if !same_call_value(&xs[i], &ys[i]) {
            proof {
                if pairs_same(*xs, *ys, xs@.len() as int) {
                    lemma_pairs_same_prefix(*xs, *ys, xs@.len() as int, i + 1);
                }
            }
            return false;
        }
        i = i + 1;
    }
    true
}

/// Whether two call values are the same value.
pub fn same_call_value(a: &CallValue, b: &CallValue) -> (r: bool)
    ensures
        r == same_value(*a, *b),
    decreases a, 0int,
{
    match (a, b) {
        (CallValue::Address(x), CallValue::Address(y)) => same_bytes(x.as_slice(), y.as_slice()),
        (CallValue::FixedBytes(x), CallValue::FixedBytes(y)) => same_bytes(x.as_slice(), y.as_slice()),
        (CallValue::Bytes(x), CallValue::Bytes(y)) => same_bytes(x.as_slice(), y.as_slice()),
        (CallValue::Int(x), CallValue::Int(y)) => same_words(x, y),
        (CallValue::Uint(x), CallValue::Uint(y)) => same_words(x, y),
        (CallValue::Bool(x), CallValue::Bool(y)) => *x == *y,
        (CallValue::String(x), CallValue::String(y)) => same_text(x.as_str(), y.as_str()),
        (CallValue::Array(x), CallValue::Array(y)) => same_list(x, y),
        (CallValue::FixedArray(x), CallValue::FixedArray(y)) => same_list(x, y),
        (CallValue::Tuple(x), CallValue::Tuple(y)) => same_list(x, y),
        _ => false,
    }
}

/// Whether every character is ASCII.
pub open spec fn ascii_text(s: Seq<char>) -> bool {
    forall|i: int| 0 <= i < s.len() ==> (#[trigger] s[i] as u32) < 128
}

pub open spec fn is_digit(c: char) -> bool {
    '0' <= c && c <= '9'
}

/// Whether the `]` at `i` closes a `[` followed by digits only.
pub open spec fn closes_dimension(s: Seq<char>, i: int) -> bool {
    exists|j: int| 0 <= j < i && #[trigger] s[j] == '[' && forall|k: int| j < k < i ==> is_digit(s[k])
}

/// A declared type text that ethabi's reader handles without panicking: ASCII,
/// each `]` closing a `[` of digits.
pub open spec fn type_text_safe(s: Seq<char>) -> bool {
    &&& ascii_text(s)
    &&& forall|i: int| 0 <= i < s.len() && s[i] == ']' ==> #[trigger] closes_dimension(s, i)
}

/// Whether the declared type text is one that the reader can be given.
pub fn check_type_text(s: &str) -> (r: bool)
    ensures
        r == type_text_safe(s@),
{
    let m = s.unicode_len();
    let mut open = false;
    let mut i: usize = 0;
    while i < m
        invariant
            m == s@.len(),
            i <= m,
            ascii_text(s@.take(i as int)),
            open <==> (exists|j: int| 0 <= j < i && #[trigger] s@[j] == '[' && forall|k: int| j < k < i ==> is_digit(s@[k])),
            forall|k: int| 0 <= k < i && s@[k] == ']' ==> #[trigger] closes_dimension(s@, k),
        decreases m - i,
    {
        let c = s.get_char(i);
        if (c as u32) >= 128 {
            assert(!ascii_text(s@)) by { assert((s@[i as int] as u32) >= 128); }
            return false;
        }
        if c == ']' && !open {
            assert(!closes_dimension(s@, i as int));
            return false;
        }
        proof {
            if open && c == ']' {
                assert(closes_dimension(s@, i as int));
            }
            assert(s@.take(i + 1) =~= s@.take(i as int).push(c));
        }
        let ghost was_open = open;
        if c == '[' {
            open = true;
        } else if !('0' <= c && c <= '9') {
            open = false;
        }
        proof {
            if c == '[' {
                assert(s@[i as int] == '[');
            } else if is_digit(c) && was_open {
                let j = choose|j: int| 0 <= j < i && #[trigger] s@[j] == '[' && forall|k: int| j < k < i ==> is_digit(s@[k]);
                assert(forall|k: int| j < k < i + 1 ==> is_digit(s@[k]));
            } else if is_digit(c) && !was_open {
                assert(!(exists|j: int| 0 <= j < i + 1 && #[trigger] s@[j] == '[' && forall|k: int| j < k < i + 1 ==> is_digit(s@[k]))) by {
                    if exists|j: int| 0 <= j < i + 1 && #[trigger] s@[j] == '[' && forall|k: int| j < k < i + 1 ==> is_digit(s@[k]) {
                        let j = choose|j: int| 0 <= j < i + 1 && #[trigger] s@[j] == '[' && forall|k: int| j < k < i + 1 ==> is_digit(s@[k]);
                        assert(j < i);
                    }
                }
            } else {
                assert(!(exists|j: int| 0 <= j < i + 1 && #[trigger] s@[j] == '[' && forall|k: int| j < k < i + 1 ==> is_digit(s@[k]))) by {
                    if exists|j: int| 0 <= j < i + 1 && #[trigger] s@[j] == '[' && forall|k: int| j < k < i + 1 ==> is_digit(s@[k]) {
                        let j = choose|j: int| 0 <= j < i + 1 && #[trigger] s@[j] == '[' && forall|k: int| j < k < i + 1 ==> is_digit(s@[k]);
                        if j < i {
                            assert(is_digit(s@[i as int]));
                        }
                    }
                }
            }
        }
        i = i + 1;
    }
    assert(s@.take(m as int) =~= s@);
    true
}

/// Whether `sig` starts with `name` and an opening parenthesis, and `name`
/// holds no parenthesis of its own.
pub open spec fn name_matches(name: Seq<char>, sig: Seq<char>) -> bool {
    &&& name.len() < sig.len()
    &&& sig.take(name.len() as int) == name
    &&& sig[name.len() as int] == '('
    &&& forall|i: int| 0 <= i < name.len() ==> name[i] != '('
}

/// Whether the argument list of `s` closes at position `i`: a `):` or a
/// final `)`.
pub open spec fn closes_at(s: Seq<char>, i: int) -> bool {
    ||| (i + 1 < s.len() && s[i] == ')' && s[i + 1] == ':')
    ||| (i + 1 == s.len() && s[i] == ')')
}

/// Whether `e` is where the argument list of `s` ends: its first close, or
/// the end of `s`.
pub open spec fn args_end(s: Seq<char>, e: int) -> bool {
    &&& 0 <= e <= s.len()
    &&& (e == s.len() || closes_at(s, e))
    &&& forall|j: int| 0 <= j < e ==> !#[trigger] closes_at(s, j)
}

/// The state of a left-to-right scan that splits a type list at the commas
/// outside parentheses: the finished items, the item in progress, the depth.
pub open spec fn scan(s: Seq<char>) -> (Seq<Seq<char>>, Seq<char>, nat)
    decreases s.len(),
{
    if s.len() == 0 {
        (seq![], seq![], 0)
    } else {
        let (done, cur, depth) = scan(s.drop_last());
        let c = s.last();
        if c == ',' && depth == 0 {
            (done.push(cur), seq![], 0)
        } else if c == ' ' {
            (done, cur, depth)
        } else if c == '(' {
            (done, cur.push(c), depth + 1)
        } else if c == ')' {
            (done, cur.push(c), if depth > 0 { (depth - 1) as nat } else { 0 })
        } else {
            (done, cur.push(c), depth)
        }
    }
}

/// The types of a comma-separated list, with spaces left out; an empty list
/// has none.
pub open spec fn split_types(s: Seq<char>) -> Seq<Seq<char>> {
    if s.len() == 0 {
        seq![]
    } else {
        scan(s).0.push(scan(s).1)
    }
}

/// The argument types that a signature such as `f(uint256,address):(bool)`
/// declares for the function `name`.
pub open spec fn declared_types(name: Seq<char>, sig: Seq<char>, e: int) -> Seq<Seq<char>> {
    split_types(sig.skip(name.len() + 1int).take(e))
}

/// The texts of a list, one after another.
pub open spec fn concat(items: Seq<Seq<char>>) -> Seq<char>
    decreases items.len(),
{
    if items.len() == 0 {
        seq![]
    } else {
        concat(items.drop_last()) + items.last()
    }
}

/// The key of a mocked call: the address, the function name, the signature
/// and the text of each argument, one after another.
pub open spec fn fingerprint(address: Seq<char>, name: Seq<char>, sig: Seq<char>, args: Seq<Seq<char>>) -> Seq<char> {
    address + name + sig + concat(args)
}

/// The views of a list of strings.
pub open spec fn texts(v: Seq<String>) -> Seq<Seq<char>> {
    v.map_values(|x: String| x@)
}

/// Whether `name` with an opening parenthesis starts the signature.
pub fn check_name(name: &str, sig: &str) -> (r: bool)
    ensures
        r == name_matches(name@, sig@),
{
    let n = name.unicode_len();
    let m = sig.unicode_len();
    if n >= m {
        return false;
    }
    let mut i: usize = 0;
    while i < n
        invariant
            n == name@.len(),
            m == sig@.len(),
            n < m,
            i <= n,
            forall|j: int| 0 <= j < i ==> name@[j] == sig@[j] && name@[j] != '(',
        decreases n - i,
    {
        let c = name.get_char(i);
        if c != sig.get_char(i) || c == '(' {
            return false;
        }
        i = i + 1;
    }
    assert(sig@.take(n as int) =~= name@);
    sig.get_char(n) == '('
}

/// Where the argument list of `s` ends.
pub fn find_args_end(s: &str) -> (e: usize)
    ensures
        args_end(s@, e as int),
{
    let m = s.unicode_len();
    let mut i: usize = 0;
    while i < m
        invariant
            m == s@.len(),
            i <= m,
            forall|j: int| 0 <= j < i ==> !#[trigger] closes_at(s@, j),
        decreases m - i,
    {
        if s.get_char(i) == ')' {
            if i + 1 == m {
                return i;
            }
            if s.get_char(i + 1) == ':' {
                return i;
            }
        }
        i = i + 1;
    }
    m
}

/// Splits a type list at the commas outside parentheses, leaving out spaces.
pub fn split_type_list(s: &str) -> (r: Vec<String>)
    ensures
        texts(r@) == split_types(s@),
{
    let m = s.unicode_len();
    if m == 0 {
        return Vec::new();
    }
    let mut done: Vec<String> = Vec::new();
    let mut cur = String::new();
    let mut depth: usize = 0;
    let mut i: usize = 0;
    while i < m
        invariant
            m == s@.len(),
            i <= m,
            depth <= i,
            scan(s@.take(i as int)) == (texts(done@), cur@, depth as nat),
        decreases m - i,
    {
        let c = s.get_char(i);
        assert(s@.take(i + 1).drop_last() =~= s@.take(i as int));
        assert(s@.take(i + 1).last() == c);
        if c == ',' && depth == 0 {
            let ghost old_done = done@;
            done.push(cur);
            cur = String::new();
            assert(texts(done@) =~= texts(old_done).push(texts(done@).last()));
        } else if c == ' ' {
        } else {
            cur.append(s.substring_char(i, i + 1));
            assert(s@.subrange(i as int, i + 1) =~= seq![c]);
            if c == '(' {
                depth = depth + 1;
            } else if c == ')' {
                if depth > 0 {
                    depth = depth - 1;
                }
            }
        }
        i = i + 1;
    }
    assert(s@.take(m as int) =~= s@);
    let ghost old_done = done@;
    done.push(cur);
    assert(texts(done@) =~= texts(old_done).push(texts(done@).last()));
    done
}

/// The key of a mocked call, from the texts of its arguments.
pub fn fn_id(address: &str, name: &str, sig: &str, args: &Vec<String>) -> (r: String)
    ensures
        r@ == fingerprint(address@, name@, sig@, texts(args@)),
{
    let mut out = String::from_str(address);
    out.append(name);
    out.append(sig);
    let mut i: usize = 0;
    while i < args.len()
        invariant
            i <= args@.len(),
            out@ == address@ + name@ + sig@ + concat(texts(args@.take(i as int))),
        decreases args@.len() - i,
    {
        assert(texts(args@.take(i + 1)).drop_last() =~= texts(args@.take(i as int)));
        out.append(args[i].as_str());
        i = i + 1;
    }
    assert(args@.take(i as int) =~= args@);
    out
}

/// What a mocked call gives back.
#[derive(Debug, PartialEq)]
pub enum MockedReturn {
    /// The call reverts.
    Reverts,
    /// The call returns these values.
    Values(Vec<CallValue>),
}

/// Why a mock could not be registered.
#[derive(Debug, PartialEq)]
pub enum MockError {
    /// The signature does not start with the function's name.
    NameMismatch { name: String, signature: String },
    /// The signature declares another number of arguments.
    ArgumentCount { name: String, expected: usize, received: usize },
    /// A declared argument type cannot be read; positions count from 1.
    InvalidType { name: String, position: usize, declared: String },
    /// An argument does not have the declared type; positions count from 1,
    /// and `received` is the argument's text.
    ArgumentMismatch { name: String, position: usize, declared: String, received: String },
}

/// Why a call could not be answered.
#[derive(Debug, PartialEq)]
pub enum CallError {
    /// No mock is registered for the call; `args` holds the text of each argument.
    NotMocked { address: String, name: String, signature: String, args: Vec<String> },
    /// The mock says that the call reverts.
    Reverted,
}

/// The text of each argument.
pub open spec fn arg_texts(args: Seq<CallValue>) -> Seq<Seq<char>> {
    args.map_values(|v: CallValue| call_text(v))
}

/// The declared type cannot be handed to the reader, or the reader refuses it.
pub open spec fn arg_invalid(ty: Seq<char>, v: CallValue) -> bool {
    !type_text_safe(ty) || read_type(ty) is None
}

/// The declared type is read, and the value does not have its shape.
pub open spec fn arg_mismatch(ty: Seq<char>, v: CallValue) -> bool {
    !arg_invalid(ty, v) && !type_matches(v, read_type(ty)->0)
}

/// The value has the declared type.
pub open spec fn arg_ok(ty: Seq<char>, v: CallValue) -> bool {
    type_text_safe(ty) && read_type(ty) is Some && type_matches(v, read_type(ty)->0)
}

/// `after` is `before` with `entry` under `key`: a key that was there is
/// overwritten, a new one is added.
pub open spec fn registered(before: Seq<(String, MockedReturn)>, after: Seq<(String, MockedReturn)>,
    key: Seq<char>, entry: MockedReturn) -> bool {
    &&& forall|k: Seq<char>| #[trigger] get_field(after, k) == if k == key { Some(entry) } else { get_field(before, k) }
    &&& after.len() == before.len() + if get_field(before, key) is None { 1int } else { 0int }
}

/// What `mock_function` reports, and how it leaves the registry.
pub open spec fn mock_outcome(before: Seq<(String, MockedReturn)>, after: Seq<(String, MockedReturn)>,
    address: Seq<char>, name: Seq<char>, sig: Seq<char>, args: Seq<CallValue>, entry: MockedReturn,
    r: Result<(), MockError>) -> bool {
    &&& r is Err ==> after == before
    &&& (r matches Err(MockError::NameMismatch { .. })) <==> !name_matches(name, sig)
    &&& name_matches(name, sig) ==> exists|e: int| #[trigger] args_end(sig.skip(name.len() + 1int), e)
    &&& forall|e: int| #[trigger] args_end(sig.skip(name.len() + 1int), e) ==> {
        let types = declared_types(name, sig, e);
        match r {
            Err(MockError::NameMismatch { name: n, signature: g }) => n@ == name && g@ == sig,
            Err(MockError::ArgumentCount { name: n, expected, received }) => name_matches(name, sig) && n@ == name
                && received == args.len() && expected == types.len() && expected != received,
            Err(MockError::InvalidType { name: n, position, declared }) => name_matches(name, sig) && n@ == name
                && types.len() == args.len() && 1 <= position <= args.len() && declared@ == types[position - 1]
                && arg_invalid(types[position - 1], args[position - 1])
                && forall|j: int| 0 <= j < position - 1 ==> #[trigger] arg_ok(types[j], args[j]),
            Err(MockError::ArgumentMismatch { name: n, position, declared, received }) => name_matches(name, sig) && n@ == name
                && types.len() == args.len() && 1 <= position <= args.len() && declared@ == types[position - 1]
                && received@ == call_text(args[position - 1])
                && arg_mismatch(types[position - 1], args[position - 1])
                && forall|j: int| 0 <= j < position - 1 ==> #[trigger] arg_ok(types[j], args[j]),
            Ok(()) => name_matches(name, sig) && types.len() == args.len()
                && (forall|j: int| 0 <= j < args.len() ==> #[trigger] arg_ok(types[j], args[j]))
                && registered(before, after, fingerprint(address, name, sig, arg_texts(args)), entry),
        }
    }
}

/// Registering a call that is registered already overwrites its entry: a
/// lookup gives the latest, and the registry does not grow.
pub proof fn lemma_latest_registration_wins(r0: Seq<(String, MockedReturn)>, r1: Seq<(String, MockedReturn)>,
    r2: Seq<(String, MockedReturn)>, key: Seq<char>, a: MockedReturn, b: MockedReturn)
    requires
        registered(r0, r1, key, a),
        registered(r1, r2, key, b),
    ensures
        get_field(r2, key) == Some(b),
        r2.len() == r1.len(),
        forall|k: Seq<char>| k != key ==> #[trigger] get_field(r2, k) == get_field(r0, k),
{
    assert(get_field(r1, key) == Some(a));
}

/// Two successful registrations of one call, with the same address, name,
/// signature and arguments, leave one entry: the later one.
pub proof fn lemma_same_call_overwrites(r0: Seq<(String, MockedReturn)>, r1: Seq<(String, MockedReturn)>,
    r2: Seq<(String, MockedReturn)>, address: Seq<char>, name: Seq<char>, sig: Seq<char>, args: Seq<CallValue>,
    a: MockedReturn, b: MockedReturn)
    requires
        mock_outcome(r0, r1, address, name, sig, args, a, Ok(())),
        mock_outcome(r1, r2, address, name, sig, args, b, Ok(())),
    ensures
        get_field(r2, fingerprint(address, name, sig, arg_texts(args))) == Some(b),
        r2.len() == r1.len(),
{
    let e = choose|e: int| #[trigger] args_end(sig.skip(name.len() + 1int), e);
    lemma_latest_registration_wins(r0, r1, r2, fingerprint(address, name, sig, arg_texts(args)), a, b);
}

/// The mocked calls, under their fingerprints.
pub struct MockRegistry {
    pub entries: Vec<(String, MockedReturn)>,
}

impl MockRegistry {
    pub fn new() -> (r: MockRegistry)
        ensures
            r.entries@.len() == 0,
    {
        MockRegistry { entries: Vec::new() }
    }

    /// Puts `entry` under `key`, overwriting what was there.
    pub fn register(&mut self, key: &String, entry: MockedReturn)
        ensures
            registered(old(self).entries@, final(self).entries@, key@, entry),
    {
        put_field(&mut self.entries, key, entry);
    }

    /// The entry under `key`.
    pub fn lookup(&self, key: &str) -> (r: Option<&MockedReturn>)
        ensures
            match r {
                Some(e) => get_field(self.entries@, key@) == Some(*e),
                None => get_field(self.entries@, key@) is None,
            },
    {
        match find_field(&self.entries, key) {
            Some(k) => Some(&self.entries[k].1),
            None => None,
        }
    }

    /// The text of each argument, as ethabi renders it.
    pub fn render_args(args: &Vec<CallValue>) -> (r: Vec<String>)
        ensures
            texts(r@) == arg_texts(args@),
    {
        let mut rendered: Vec<String> = Vec::new();
        let mut i: usize = 0;
        while i < args.len()
            invariant
                i <= args@.len(),
                rendered@.len() == i,
                forall|j: int| 0 <= j < i ==> #[trigger] rendered@[j]@ == call_text(args@[j]),
            decreases args@.len() - i,
        {
            rendered.push(token_text(&args[i]));
            i = i + 1;
        }
        assert(texts(rendered@) =~= arg_texts(args@));
        rendered
    }

    /// Registers a mocked call after checking the arguments against the
    /// signature: its name, the number of arguments and each one's type.
    pub fn mock_function(&mut self, address: &str, name: &str, sig: &str, args: &Vec<CallValue>,
        return_values: Vec<CallValue>, reverts: bool) -> (r: Result<(), MockError>)
        ensures
            mock_outcome(old(self).entries@, final(self).entries@, address@, name@, sig@, args@,
                if reverts { MockedReturn::Reverts } else { MockedReturn::Values(return_values) }, r),
    {
        if !check_name(name, sig) {
            return Err(MockError::NameMismatch { name: String::from_str(name), signature: String::from_str(sig) });
        }
        let n = name.unicode_len();
        let m = sig.unicode_len();
        let rest = sig.substring_char(n + 1, m);
        assert(rest@ =~= sig@.skip(name@.len() + 1int));
        let e = find_args_end(rest);
        let types = split_type_list(rest.substring_char(0, e));
        assert(rest@.subrange(0, e as int) =~= rest@.take(e as int));
        proof {
            assert forall|e2: int| #[trigger] args_end(rest@, e2) implies e2 == e by {
                if e2 < e { assert(closes_at(rest@, e2)); }
                if e < e2 { assert(closes_at(rest@, e as int)); }
            }
        }
        assert(texts(types@).len() == types@.len());
        if types.len() != args.len() {
            return Err(MockError::ArgumentCount { name: String::from_str(name), expected: types.len(), received: args.len() });
        }
        let mut i: usize = 0;
        while i < types.len()
            invariant
                i <= types@.len(),
                types@.len() == args@.len(),
                texts(types@) == declared_types(name@, sig@, e as int),
                name_matches(name@, sig@),
                self.entries@ == old(self).entries@,
                forall|e2: int| #[trigger] args_end(sig@.skip(name@.len() + 1int), e2) ==> e2 == e,
                args_end(sig@.skip(name@.len() + 1int), e as int),
                forall|j: int| 0 <= j < i ==> #[trigger] arg_ok(texts(types@)[j], args@[j]),
            decreases types@.len() - i,
        {
            let ty = types[i].as_str();
            assert(texts(types@)[i as int] == ty@);
            if !check_type_text(ty) {
                return Err(MockError::InvalidType { name: String::from_str(name), position: i + 1, declared: types[i].clone() });
            }
            match parse_type(ty) {
                None => {
                    return Err(MockError::InvalidType { name: String::from_str(name), position: i + 1, declared: types[i].clone() });
                },
                Some(t) => {
                    if !value_matches_type(&args[i], &t) {
                        let received = token_text(&args[i]);
                        return Err(MockError::ArgumentMismatch {
                            name: String::from_str(name),
                            position: i + 1,
                            declared: types[i].clone(),
                            received,
                        });
                    }
                },
            }
            i = i + 1;
        }
        let rendered = Self::render_args(args);
        let key = fn_id(address, name, sig, &rendered);
        let entry = if reverts { MockedReturn::Reverts } else { MockedReturn::Values(return_values) };
        self.register(&key, entry);
        Ok(())
    }

    /// Answers a call from the registry: the registered values, a revert, or
    /// an error naming the call when no mock matches.
    pub fn ethereum_call(&self, address: &str, name: &str, sig: &str, args: &Vec<CallValue>)
        -> (r: Result<&Vec<CallValue>, CallError>)
        ensures
            match r {
                Ok(vals) => get_field(self.entries@, fingerprint(address@, name@, sig@, arg_texts(args@)))
                    == Some(MockedReturn::Values(*vals)),
                Err(CallError::Reverted) => get_field(self.entries@, fingerprint(address@, name@, sig@, arg_texts(args@)))
                    == Some(MockedReturn::Reverts),
                Err(CallError::NotMocked { address: a, name: n, signature: s, args: t }) =>
                    get_field(self.entries@, fingerprint(address@, name@, sig@, arg_texts(args@))) is None
                        && a@ == address@ && n@ == name@ && s@ == sig@ && texts(t@) == arg_texts(args@),
            },
    {
        let rendered = Self::render_args(args);
        let key = fn_id(address, name, sig, &rendered);
        match self.lookup(key.as_str()) {
            None => Err(CallError::NotMocked {
                address: String::from_str(address),
                name: String::from_str(name),
                signature: String::from_str(sig),
                args: rendered,
            }),
            Some(MockedReturn::Reverts) => Err(CallError::Reverted),
            Some(MockedReturn::Values(v)) => Ok(v),
        }
    }
}

} // verus!
