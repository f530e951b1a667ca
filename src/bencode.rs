use vstd::prelude::*;

use crate::digest::{bytes_equal, sha1_digest, sha1_of};
use crate::wire::push_all;

verus! {

/// The mathematical value that a bencoded element denotes.
pub enum Value {
    Int(int),
    Bytes(Seq<u8>),
    List(Seq<Value>),
    Dict(Seq<(Seq<u8>, Value)>),
}

/// A bencoded element. A dictionary holds its entries in increasing key order, each key once.
#[derive(Debug)]
pub enum Element {
    Dict(Vec<(Vec<u8>, Element)>),
    Integer(i64),
    ByteString(Vec<u8>),
    List(Vec<Element>),
}

impl Element {
    /// The value this element denotes.
    pub open spec fn model(&self) -> Value
        decreases self,
    {
        match self {
            Element::Integer(i) => Value::Int(*i as int),
            Element::ByteString(s) => Value::Bytes(s@),
            Element::List(v) => Value::List(
                Seq::new(
                    v@.len(),
                    |k: int|
                        if 0 <= k < v@.len() {
                            v@[k].model()
                        } else {
                            Value::Int(0)
                        },
                ),
            ),
            Element::Dict(v) => Value::Dict(
                Seq::new(
                    v@.len(),
                    |k: int|
                        if 0 <= k < v@.len() {
                            (v@[k].0@, v@[k].1.model())
                        } else {
                            (Seq::empty(), Value::Int(0))
                        },
                ),
            ),
        }
    }
}

/// The decimal digits of `n`, most significant first, without leading zeros.
pub open spec fn dec(n: nat) -> Seq<u8>
    decreases n,
{
    if n < 10 {
        seq![(48 + n) as u8]
    } else {
        dec(n / 10) + seq![(48 + n % 10) as u8]
    }
}

/// Byte strict order: `a` sorts before `b`, byte by byte, a proper prefix first.
pub open spec fn key_lt(a: Seq<u8>, b: Seq<u8>) -> bool
    decreases a.len(),
{
    if a.len() == 0 {
        b.len() > 0
    } else if b.len() == 0 {
        false
    } else if a[0] != b[0] {
        a[0] < b[0]
    } else {
        key_lt(a.drop_first(), b.drop_first())
    }
}

/// The keys strictly increase.
pub open spec fn keys_sorted(es: Seq<(Seq<u8>, Value)>) -> bool {
    forall|i: int, j: int| 0 <= i < j < es.len() ==> key_lt(#[trigger] es[i].0, #[trigger] es[j].0)
}

/// Every dictionary within `v` has strictly increasing keys.
pub open spec fn canonical(v: Value) -> bool
    decreases v,
{
    match v {
        Value::Int(_) => true,
        Value::Bytes(_) => true,
        Value::List(vs) => forall|k: int| 0 <= k < vs.len() ==> canonical(#[trigger] vs[k]),
        Value::Dict(es) => keys_sorted(es) && forall|k: int|
            0 <= k < es.len() ==> canonical(#[trigger] es[k].1),
    }
}

/// A byte string: its length in decimal, a colon, its bytes.
pub open spec fn enc_bytes(s: Seq<u8>) -> Seq<u8> {
    dec(s.len()) + seq![58u8] + s
}

/// An integer: `i`, an optional minus sign, its decimal digits, `e`.
pub open spec fn enc_int(i: int) -> Seq<u8> {
    seq![105u8] + (if i < 0 {
        seq![45u8] + dec((-i) as nat)
    } else {
        dec(i as nat)
    }) + seq![101u8]
}

/// The encoding of the first `n` values.
pub open spec fn enc_list(vs: Seq<Value>, n: int) -> Seq<u8>
    decreases vs, n,
{
    if n <= 0 || n > vs.len() {
        Seq::empty()
    } else {
        enc_list(vs, n - 1) + enc(vs[n - 1])
    }
}

/// The encoding of the first `n` entries, each key followed by its value.
pub open spec fn enc_entries(es: Seq<(Seq<u8>, Value)>, n: int) -> Seq<u8>
    decreases es, n,
{
    if n <= 0 || n > es.len() {
        Seq::empty()
    } else {
        enc_entries(es, n - 1) + enc_bytes(es[n - 1].0) + enc(es[n - 1].1)
    }
}

/// The bencoding of `v`: dictionary entries in the order they are held.
pub open spec fn enc(v: Value) -> Seq<u8>
    decreases v, 0int,
{
    match v {
        Value::Int(i) => enc_int(i),
        Value::Bytes(s) => enc_bytes(s),
        Value::List(vs) => seq![108u8] + enc_list(vs, vs.len() as int) + seq![101u8],
        Value::Dict(es) => seq![100u8] + enc_entries(es, es.len() as int) + seq![101u8],
    }
}

pub open spec fn is_digit(c: u8) -> bool {
    48 <= c <= 57
}

/// The end of the run of digits that starts at `pos`.
pub open spec fn digits_end(b: Seq<u8>, pos: int) -> int
    decreases b.len() - pos,
{
    if 0 <= pos < b.len() && is_digit(b[pos]) {
        digits_end(b, pos + 1)
    } else {
        pos
    }
}

/// The number that a run of digits spells.
pub open spec fn digits_value(s: Seq<u8>) -> nat
    decreases s.len(),
{
    if s.len() == 0 {
        0
    } else {
        digits_value(s.drop_last()) * 10 + (s.last() - 48) as nat
    }
}

/// Digits as a canonical encoder writes them: at least one, no leading zero, at most 19.
pub open spec fn canonical_digits(s: Seq<u8>) -> bool {
    1 <= s.len() <= 19 && (s[0] != 48 || s.len() == 1)
}

pub open spec fn pow10(n: nat) -> nat
    decreases n,
{
    if n == 0 {
        1
    } else {
        10 * pow10((n - 1) as nat)
    }
}

/// An integer at `pos`, which holds `i`: `Ok` with the value and the position after `e`,
/// or `Err` with the offset of the fault.
pub open spec fn parse_int(b: Seq<u8>, pos: int) -> Result<(Value, int), int> {
    let neg = pos + 1 < b.len() && b[pos + 1] == 45;
    let ds = if neg {
        pos + 2
    } else {
        pos + 1
    };
    let e = digits_end(b, ds);
    let s = b.subrange(ds, e);
    let n = digits_value(s);
    if !canonical_digits(s) || (neg && n == 0) || (!neg && n > i64::MAX) || (neg && n > i64::MAX
        + 1) {
        Err(ds)
    } else if e >= b.len() || b[e] != 101 {
        Err(e)
    } else {
        Ok(
            (
                Value::Int(
                    if neg {
                        -n
                    } else {
                        n as int
                    },
                ),
                e + 1,
            ),
        )
    }
}

/// A byte string at `pos`: `Ok` with its bytes and the position after them.
pub open spec fn parse_bytes(b: Seq<u8>, pos: int) -> Result<(Seq<u8>, int), int> {
    let e = digits_end(b, pos);
    let s = b.subrange(pos, e);
    let n = digits_value(s);
    if !canonical_digits(s) {
        Err(pos)
    } else if e >= b.len() || b[e] != 58 {
        Err(e)
    } else if e + 1 + n > b.len() {
        Err(b.len() as int)
    } else {
        Ok((b.subrange(e + 1, e + 1 + n), e + 1 + n))
    }
}

/// Where key `k` goes among entries sorted by key, searching from `j`.
pub open spec fn insert_pos(es: Seq<(Seq<u8>, Value)>, k: Seq<u8>, j: int) -> int
    decreases es.len() - j,
{
    if j < 0 || j >= es.len() {
        j
    } else if key_lt(es[j].0, k) {
        insert_pos(es, k, j + 1)
    } else {
        j
    }
}

/// Entry `e` added to sorted entries: it replaces an entry with the same key, or goes where
/// its key sorts.
pub open spec fn dict_insert(es: Seq<(Seq<u8>, Value)>, e: (Seq<u8>, Value)) -> Seq<
    (Seq<u8>, Value),
> {
    let j = insert_pos(es, e.0, 0);
    if 0 <= j < es.len() && es[j].0 == e.0 {
        es.update(j, e)
    } else {
        es.insert(j, e)
    }
}

/// The dictionary that entries read in order make: sorted by key, the last entry of a key
/// kept.
pub open spec fn dict_from(es: Seq<(Seq<u8>, Value)>) -> Seq<(Seq<u8>, Value)>
    decreases es.len(),
{
    if es.len() == 0 {
        Seq::empty()
    } else {
        dict_insert(dict_from(es.drop_last()), es.last())
    }
}

/// The element at `pos`: `Ok` with its value and the position after it, or `Err` with the
/// offset of the first fault.
pub open spec fn parse_value(b: Seq<u8>, pos: int) -> Result<(Value, int), int>
    decreases b.len() - pos, 0int,
{
    if pos < 0 || pos >= b.len() {
        Err(b.len() as int)
    } else if b[pos] == 105 {
        parse_int(b, pos)
    } else if is_digit(b[pos]) {
        match parse_bytes(b, pos) {
            Ok((s, e)) => Ok((Value::Bytes(s), e)),
            Err(x) => Err(x),
        }
    } else if b[pos] == 108 {
        match parse_list(b, pos + 1) {
            Ok((vs, e)) => Ok((Value::List(vs), e)),
            Err(x) => Err(x),
        }
    } else if b[pos] == 100 {
        match parse_dict(b, pos + 1) {
            Ok((es, e)) => Ok((Value::Dict(dict_from(es)), e)),
            Err(x) => Err(x),
        }
    } else {
        Err(pos)
    }
}

/// The elements of a list from `p` up to its closing `e`.
pub open spec fn parse_list(b: Seq<u8>, p: int) -> Result<(Seq<Value>, int), int>
    decreases b.len() - p, 1int,
{
    if p < 0 || p >= b.len() {
        Err(b.len() as int)
    } else if b[p] == 101 {
        Ok((Seq::empty(), p + 1))
    } else {
        match parse_value(b, p) {
            Err(x) => Err(x),
            Ok((v, q)) => if q <= p || q > b.len() {
                Err(p)
            } else {
                match parse_list(b, q) {
                    Err(x) => Err(x),
                    Ok((vs, r)) => Ok((seq![v] + vs, r)),
                }
            },
        }
    }
}

/// The entries of a dictionary from `p` up to its closing `e`, in the order read.
pub open spec fn parse_dict(b: Seq<u8>, p: int) -> Result<(Seq<(Seq<u8>, Value)>, int), int>
    decreases b.len() - p, 1int,
{
    if p < 0 || p >= b.len() {
        Err(b.len() as int)
    } else if b[p] == 101 {
        Ok((Seq::empty(), p + 1))
    } else if !is_digit(b[p]) {
        Err(p)
    } else {
        match parse_bytes(b, p) {
            Err(x) => Err(x),
            Ok((k, q)) => if q <= p || q > b.len() {
                Err(p)
            } else {
                match parse_value(b, q) {
                    Err(x) => Err(x),
                    Ok((v, r)) => if r <= q || r > b.len() {
                        Err(q)
                    } else {
                        match parse_dict(b, r) {
                            Err(x) => Err(x),
                            Ok((es, t)) => Ok((seq![(k, v)] + es, t)),
                        }
                    },
                }
            },
        }
    }
}

/// The key `info`.
pub open spec fn info_key() -> Seq<u8> {
    seq![105u8, 110, 102, 111]
}

/// Within a dictionary read from `p`, the byte range of the value of the last `info` key.
pub open spec fn dict_info_span(b: Seq<u8>, p: int) -> Option<(int, int)>
    decreases b.len() - p,
{
    if p < 0 || p >= b.len() || b[p] == 101 || !is_digit(b[p]) {
        None
    } else {
        match parse_bytes(b, p) {
            Err(_) => None,
            Ok((k, q)) => if q <= p || q > b.len() {
                None
            } else {
                match parse_value(b, q) {
                    Err(_) => None,
                    Ok((v, r)) => if r <= q || r > b.len() {
                        None
                    } else {
                        match dict_info_span(b, r) {
                            Some(x) => Some(x),
                            None => if k == info_key() {
                                Some((q, r))
                            } else {
                                None
                            },
                        }
                    },
                }
            },
        }
    }
}

/// A whole buffer holding one element: `Ok` with its value, or `Err` with the fault's offset.
pub open spec fn decode_spec(b: Seq<u8>) -> Result<Value, int> {
    match parse_value(b, 0) {
        Err(x) => Err(x),
        Ok((v, e)) => if e == b.len() {
            Ok(v)
        } else {
            Err(e)
        },
    }
}

/// The byte range of the top-level dictionary's `info` value, exactly as in the input.
pub open spec fn info_span(b: Seq<u8>) -> Option<(int, int)> {
    if b.len() > 0 && b[0] == 100 {
        dict_info_span(b, 1)
    } else {
        None
    }
}

/// The byte at `i`, or zero past the end.
pub open spec fn byte_at(b: Seq<u8>, i: int) -> u8 {
    if 0 <= i < b.len() {
        b[i]
    } else {
        0
    }
}

/// Appends the decimal digits of `n`.
pub(crate) fn push_decimal(buf: &mut Vec<u8>, n: u64)
    ensures
        final(buf)@ == old(buf)@ + dec(n as nat),
    decreases n,
{
    if n >= 10 {
        push_decimal(buf, n / 10);
    }
    buf.push((48 + n % 10) as u8);
    proof {
        if n >= 10 {
            assert(buf@ =~= old(buf)@ + dec(n as nat));
        } else {
            assert(buf@ =~= old(buf)@ + dec(n as nat));
        }
    }
}

/// Appends the encoding of byte string `s`.
fn push_bytes_enc(buf: &mut Vec<u8>, s: &Vec<u8>)
    ensures
        final(buf)@ == old(buf)@ + enc_bytes(s@),
{
    push_decimal(buf, s.len() as u64);
    buf.push(58);
    push_all(buf, s.as_slice());
    assert(buf@ =~= old(buf)@ + enc_bytes(s@));
}

impl Element {
    /// Appends the encoding of this element.
    #[verifier::loop_isolation(false)]
    fn encode_into(&self, buf: &mut Vec<u8>)
        ensures
            final(buf)@ == old(buf)@ + enc(self.model()),
        decreases self,
    {
        match self {
            Element::Integer(i) => {
                buf.push(105);
                if *i < 0 {
                    buf.push(45);
                    let m: u64 = if *i == i64::MIN {
                        0x8000_0000_0000_0000u64
                    } else {
                        (-*i) as u64
                    };
                    push_decimal(buf, m);
                } else {
                    push_decimal(buf, *i as u64);
                }
                buf.push(101);
                assert(buf@ =~= old(buf)@ + enc(self.model()));
            },
            Element::ByteString(s) => {
                push_bytes_enc(buf, s);
            },
            Element::List(v) => {
                buf.push(108);
                let ghost start = buf@;
                let ghost vs = self.model()->List_0;
                let mut k: usize = 0;
                while k < v.len()
                    invariant
                        k <= v@.len(),
                        vs.len() == v@.len(),
                        forall|j: int| 0 <= j < v@.len() ==> #[trigger] vs[j] == v@[j].model(),
                        buf@ == start + enc_list(vs, k as int),
                    decreases v@.len() - k,
                {
                    assert(decreases_to!(v => v[k as int]));
                    v[k].encode_into(buf);
                    k = k + 1;
                    assert(buf@ =~= start + enc_list(vs, k as int));
                }
                buf.push(101);
                assert(buf@ =~= old(buf)@ + enc(self.model()));
            },
            Element::Dict(v) => {
                buf.push(100);
                let ghost start = buf@;
                let ghost es = self.model()->Dict_0;
                let mut k: usize = 0;
                while k < v.len()
                    invariant
                        k <= v@.len(),
                        es.len() == v@.len(),
                        forall|j: int|
                            0 <= j < v@.len() ==> #[trigger] es[j] == (v@[j].0@, v@[j].1.model()),
                        buf@ == start + enc_entries(es, k as int),
                    decreases v@.len() - k,
                {
                    push_bytes_enc(buf, &v[k].0);
                    assert(decreases_to!(v => v[k as int]));
                    v[k].1.encode_into(buf);
                    k = k + 1;
                    assert(buf@ =~= start + enc_entries(es, k as int));
                }
                buf.push(101);
                assert(buf@ =~= old(buf)@ + enc(self.model()));
            },
        }
    }
}

/// A byte that the decoder could not accept: its offset, and the byte there (zero past
/// the end of the input).
#[derive(Debug)]
pub struct InvalidCharError {
    pub index: usize,
    pub curr: u8,
}

/// The models of a list's elements.
pub open spec fn list_model(v: Seq<Element>) -> Seq<Value> {
    Seq::new(v.len(), |k: int| v[k].model())
}

/// The models of a dictionary's entries.
pub open spec fn dict_model(v: Seq<(Vec<u8>, Element)>) -> Seq<(Seq<u8>, Value)> {
    Seq::new(v.len(), |k: int| (v[k].0@, v[k].1.model()))
}

/// Whether `a` sorts strictly before `b`.
pub fn key_less(a: &[u8], b: &[u8]) -> (r: bool)
    ensures
        r == key_lt(a@, b@),
{
    let mut i: usize = 0;
    assert(a@.subrange(0, a@.len() as int) =~= a@);
    assert(b@.subrange(0, b@.len() as int) =~= b@);
    while i < a.len() && i < b.len()
        invariant
            i <= a@.len(),
            i <= b@.len(),
            key_lt(a@, b@) == key_lt(a@.subrange(i as int, a@.len() as int), b@.subrange(i as int, b@.len() as int)),
        decreases a@.len() - i,
    {
        let ghost sa = a@.subrange(i as int, a@.len() as int);
        let ghost sb = b@.subrange(i as int, b@.len() as int);
        assert(sa[0] == a@[i as int]);
        assert(sb[0] == b@[i as int]);
        if a[i] != b[i] {
            return a[i] < b[i];
        }
        assert(sa.drop_first() =~= a@.subrange(i + 1, a@.len() as int));
        assert(sb.drop_first() =~= b@.subrange(i + 1, b@.len() as int));
        i = i + 1;
    }
    let ghost sa = a@.subrange(i as int, a@.len() as int);
    let ghost sb = b@.subrange(i as int, b@.len() as int);
    i == a.len() && i < b.len()
}

/// Adds entry `(k, v)` to sorted entries `es` as [`dict_insert`] describes.
fn insert_entry(es: &mut Vec<(Vec<u8>, Element)>, k: Vec<u8>, v: Element)
    ensures
        dict_model(final(es)@) == dict_insert(dict_model(old(es)@), (k@, v.model())),
{
    let ghost m = dict_model(es@);
    let mut j: usize = 0;
    while j < es.len() && key_less(es[j].0.as_slice(), k.as_slice())
        invariant
            j <= es@.len(),
            m == dict_model(es@),
            insert_pos(m, k@, 0) == insert_pos(m, k@, j as int),
        decreases es@.len() - j,
    {
        assert(m[j as int].0 == es@[j as int].0@);
        j = j + 1;
    }
    proof {
        if j < es@.len() {
            assert(m[j as int].0 == es@[j as int].0@);
        }
    }
    let ghost e = (k@, v.model());
    if j < es.len() && bytes_equal(es[j].0.as_slice(), k.as_slice()) {
        es.set(j, (k, v));
        assert(dict_model(es@) =~= m.update(j as int, e));
    } else {
        es.insert(j, (k, v));
        assert(dict_model(es@) =~= m.insert(j as int, e));
    }
}

/// The decoder's state: the input and the offset of the next byte to read.
pub struct Bencode {
    buf: Vec<u8>,
    ind: usize,
    info_ind: Option<(usize, usize)>,
}

impl Bencode {
    /// The bencoding of `decoded`, whose dictionaries hold their keys in increasing order,
    /// so that the keys come out sorted.
    pub fn encode(decoded: &Element) -> (r: Vec<u8>)
        requires
            canonical(decoded.model()),
        ensures
            r@ == enc(decoded.model()),
    {
        let mut buf: Vec<u8> = Vec::new();
        decoded.encode_into(&mut buf);
        assert(buf@ =~= enc(decoded.model()));
        buf
    }

    fn new(buf: Vec<u8>) -> (r: Bencode)
        ensures
            r.buf@ == buf@,
            r.ind == 0,
            r.info_ind is None,
    {
        Bencode { buf, ind: 0, info_ind: None }
    }

    /// The error for the byte at `x`.
    fn error_at(&self, x: usize) -> (r: InvalidCharError)
        ensures
            r.index == x,
            r.curr == byte_at(self.buf@, x as int),
    {
        let curr = if x < self.buf.len() {
            self.buf[x]
        } else {
            0
        };
        InvalidCharError { index: x, curr }
    }

    /// The end of the run of digits from `start`.
    fn scan_digits(&self, start: usize) -> (e: usize)
        requires
            start <= self.buf@.len(),
        ensures
            e as int == digits_end(self.buf@, start as int),
            start <= e <= self.buf@.len(),
    {
        let mut e = start;
        while e < self.buf.len() && self.buf[e] >= 48 && self.buf[e] <= 57
            invariant
                start <= e <= self.buf@.len(),
                digits_end(self.buf@, start as int) == digits_end(self.buf@, e as int),
            decreases self.buf@.len() - e,
        {
            e = e + 1;
        }
        e
    }

    /// The number that digits `[start, e)` spell; there are at most 19 of them.
    fn digits_number(&self, start: usize, e: usize) -> (r: u64)
        requires
            start <= e <= self.buf@.len(),
            e - start <= 19,
            forall|k: int| start <= k < e ==> is_digit(#[trigger] self.buf@[k]),
        ensures
            r == digits_value(self.buf@.subrange(start as int, e as int)),
    {
        proof {
            reveal_with_fuel(pow10, 20);
        }
        let mut acc: u64 = 0;
        let mut i = start;
        while i < e
            invariant
                start <= i <= e <= self.buf@.len(),
                e - start <= 19,
                forall|k: int| start <= k < e ==> is_digit(#[trigger] self.buf@[k]),
                acc == digits_value(self.buf@.subrange(start as int, i as int)),
                acc < pow10((i - start) as nat),
                pow10(19) == 10_000_000_000_000_000_000nat,
            decreases e - i,
        {
            let ghost pre = self.buf@.subrange(start as int, i as int);
            let ghost next = self.buf@.subrange(start as int, i + 1);
            assert(next.drop_last() =~= pre);
            assert(is_digit(self.buf@[i as int]));
            proof {
                lemma_pow10_mono((i + 1 - start) as nat, 19);
                assert(pow10((i + 1 - start) as nat) == 10 * pow10((i - start) as nat));
            }
            acc = acc * 10 + (self.buf[i] - 48) as u64;
            i = i + 1;
        }
        acc
    }
}

/// The view of a recorded byte range.
pub open spec fn span_view(o: Option<(usize, usize)>) -> Option<(int, int)> {
    match o {
        Some((a, b)) => Some((a as int, b as int)),
        None => None,
    }
}

/// A later `info` range found in the rest of a dictionary wins over one recorded before.
pub open spec fn later_span(rest: Option<(int, int)>, before: Option<(int, int)>) -> Option<(int, int)> {
    match rest {
        Some(x) => Some(x),
        None => before,
    }
}

/// The decoder gave what the spec parser gives for `b` at the start offset.
pub open spec fn element_result(r: Result<Element, InvalidCharError>, spec: Result<(Value, int), int>, b: Seq<u8>, end: int) -> bool {
    match spec {
        Ok((v, e)) => r matches Ok(el) && el.model() == v && end == e,
        Err(x) => r matches Err(err) && err.index == x && err.curr == byte_at(b, x),
    }
}

/// Every byte of a run of digits is a digit, and the run stays within the buffer.
proof fn lemma_digits_run(b: Seq<u8>, p: int)
    requires
        0 <= p <= b.len(),
    ensures
        p <= digits_end(b, p) <= b.len(),
        forall|k: int| p <= k < digits_end(b, p) ==> is_digit(#[trigger] b[k]),
        digits_end(b, p) < b.len() ==> !is_digit(b[digits_end(b, p)]),
    decreases b.len() - p,
{
    if p < b.len() && is_digit(b[p]) {
        lemma_digits_run(b, p + 1);
    }
}

/// The bytes of `b` in `[from, to)`.
fn copy_range(b: &Vec<u8>, from: usize, to: usize) -> (r: Vec<u8>)
    requires
        from <= to <= b@.len(),
    ensures
        r@ == b@.subrange(from as int, to as int),
{
    let mut out: Vec<u8> = Vec::new();
    let mut i = from;
    while i < to
        invariant
            from <= i <= to <= b@.len(),
            out@ == b@.subrange(from as int, i as int),
        decreases to - i,
    {
        out.push(b[i]);
        i = i + 1;
        assert(out@ =~= b@.subrange(from as int, i as int));
    }
    out
}

impl Bencode {
    /// Reads the integer at the read offset, which holds `i`.
    fn read_int(&mut self) -> (r: Result<Element, InvalidCharError>)
        requires
            old(self).ind < old(self).buf@.len(),
            old(self).buf@[old(self).ind as int] == 105,
        ensures
            final(self).buf@ == old(self).buf@,
            final(self).info_ind == old(self).info_ind,
            element_result(r, parse_int(old(self).buf@, old(self).ind as int), old(self).buf@, final(self).ind as int),
    {
        let ghost b = self.buf@;
        let pos = self.ind;
        let n = self.buf.len();
        let neg = pos + 1 < n && self.buf[pos + 1] == 45;
        let ds = if neg {
            pos + 2
        } else {
            pos + 1
        };
        let e = self.scan_digits(ds);
        proof {
            lemma_digits_run(b, ds as int);
        }
        let cnt = e - ds;
        if cnt < 1 || cnt > 19 || (self.buf[ds] == 48 && cnt != 1) {
            return Err(self.error_at(ds));
        }
        let v = self.digits_number(ds, e);
        if (neg && v == 0) || (!neg && v > 0x7fff_ffff_ffff_ffff) || (neg && v
            > 0x8000_0000_0000_0000) {
            return Err(self.error_at(ds));
        }
        if e >= n || self.buf[e] != 101 {
            return Err(self.error_at(e));
        }
        self.ind = e + 1;
        let x: i64 = if neg {
            if v == 0x8000_0000_0000_0000 {
                i64::MIN
            } else {
                -(v as i64)
            }
        } else {
            v as i64
        };
        Ok(Element::Integer(x))
    }

    /// Reads the byte string at the read offset, which holds a digit.
    fn read_byte_string(&mut self) -> (r: Result<Vec<u8>, InvalidCharError>)
        requires
            old(self).ind <= old(self).buf@.len(),
        ensures
            final(self).buf@ == old(self).buf@,
            final(self).info_ind == old(self).info_ind,
            match parse_bytes(old(self).buf@, old(self).ind as int) {
                Ok((s, e)) => r matches Ok(v) && v@ == s && final(self).ind == e,
                Err(x) => r matches Err(err) && err.index == x && err.curr == byte_at(
                    old(self).buf@,
                    x,
                ),
            },
    {
        let ghost b = self.buf@;
        let pos = self.ind;
        let n = self.buf.len();
        let e = self.scan_digits(pos);
        proof {
            lemma_digits_run(b, pos as int);
        }
        let cnt = e - pos;
        if cnt < 1 || cnt > 19 || (self.buf[pos] == 48 && cnt != 1) {
            return Err(self.error_at(pos));
        }
        let v = self.digits_number(pos, e);
        if e >= n || self.buf[e] != 58 {
            return Err(self.error_at(e));
        }
        if v > (n - e - 1) as u64 {
            return Err(self.error_at(n));
        }
        let end = e + 1 + v as usize;
        let s = copy_range(&self.buf, e + 1, end);
        self.ind = end;
        Ok(s)
    }

    /// Reads the element at the read offset.
    fn call_element(&mut self) -> (r: Result<Element, InvalidCharError>)
        requires
            old(self).ind <= old(self).buf@.len(),
        ensures
            final(self).buf@ == old(self).buf@,
            final(self).info_ind == old(self).info_ind,
            element_result(r, parse_value(old(self).buf@, old(self).ind as int), old(self).buf@, final(self).ind as int),
        decreases old(self).buf@.len() - old(self).ind, 0int,
    {
        let pos = self.ind;
        if pos >= self.buf.len() {
            return Err(self.error_at(self.buf.len()));
        }
        let c = self.buf[pos];
        if c == 105 {
            self.read_int()
        } else if c >= 48 && c <= 57 {
            match self.read_byte_string() {
                Ok(s) => Ok(Element::ByteString(s)),
                Err(e) => Err(e),
            }
        } else if c == 108 {
            self.ind = pos + 1;
            self.read_list()
        } else if c == 100 {
            self.ind = pos + 1;
            self.read_dict(false)
        } else {
            Err(self.error_at(pos))
        }
    }

    /// Reads the elements of a list up to its closing `e`, from the read offset.
    #[verifier::loop_isolation(false)]
    fn read_list(&mut self) -> (r: Result<Element, InvalidCharError>)
        requires
            old(self).ind <= old(self).buf@.len(),
        ensures
            final(self).buf@ == old(self).buf@,
            final(self).info_ind == old(self).info_ind,
            element_result(
                r,
                match parse_list(old(self).buf@, old(self).ind as int) {
                    Ok((vs, e)) => Ok((Value::List(vs), e)),
                    Err(x) => Err(x),
                },
                old(self).buf@,
                final(self).ind as int,
            ),
        decreases old(self).buf@.len() - old(self).ind, 1int,
    {
        let ghost b = self.buf@;
        let ghost start = self.ind as int;
        let mut v: Vec<Element> = Vec::new();
        loop
            invariant
                self.buf@ == b,
                self.info_ind == old(self).info_ind,
                start <= self.ind <= b.len(),
                parse_list(b, start) == match parse_list(b, self.ind as int) {
                    Ok((vs, e)) => Ok((list_model(v@) + vs, e)),
                    Err(x) => Err(x),
                },
            decreases b.len() - self.ind,
        {
            let p = self.ind;
            if p >= self.buf.len() {
                return Err(self.error_at(self.buf.len()));
            }
            if self.buf[p] == 101 {
                self.ind = p + 1;
                proof {
                    assert(list_model(v@) + Seq::<Value>::empty() =~= list_model(v@));
                    assert(Element::List(v).model() == Value::List(list_model(v@))) by {
                        assert(Element::List(v).model()->List_0 =~= list_model(v@));
                    }
                }
                return Ok(Element::List(v));
            }
            let el = match self.call_element() {
                Ok(el) => el,
                Err(e) => {
                    return Err(e);
                },
            };
            let q = self.ind;
            if q <= p || q > self.buf.len() {
                return Err(self.error_at(p));
            }
            let ghost before = list_model(v@);
            v.push(el);
            proof {
                assert(list_model(v@) =~= before.push(el.model()));
                match parse_list(b, q as int) {
                    Ok((vs, e)) => {
                        assert(before + (seq![el.model()] + vs) =~= list_model(v@) + vs);
                    },
                    Err(_) => {},
                }
            }
        }
    }

    /// Reads the entries of a dictionary up to its closing `e`, from the read offset, keeping
    /// them sorted by key. At the top level it records the byte range of the `info` value.
    #[verifier::loop_isolation(false)]
    fn read_dict(&mut self, top: bool) -> (r: Result<Element, InvalidCharError>)
        requires
            old(self).ind <= old(self).buf@.len(),
        ensures
            final(self).buf@ == old(self).buf@,
            !top ==> final(self).info_ind == old(self).info_ind,
            top && r is Ok ==> span_view(final(self).info_ind) == later_span(
                dict_info_span(old(self).buf@, old(self).ind as int),
                span_view(old(self).info_ind),
            ),
            element_result(
                r,
                match parse_dict(old(self).buf@, old(self).ind as int) {
                    Ok((es, e)) => Ok((Value::Dict(dict_from(es)), e)),
                    Err(x) => Err(x),
                },
                old(self).buf@,
                final(self).ind as int,
            ),
        decreases old(self).buf@.len() - old(self).ind, 1int,
    {
        let ghost b = self.buf@;
        let ghost start = self.ind as int;
        let ghost info0 = span_view(self.info_ind);
        let ghost mut seen: Seq<(Seq<u8>, Value)> = Seq::empty();
        let mut v: Vec<(Vec<u8>, Element)> = Vec::new();
        loop
            invariant
                self.buf@ == b,
                !top ==> self.info_ind == old(self).info_ind,
                start <= self.ind <= b.len(),
                dict_model(v@) == dict_from(seen),
                parse_dict(b, start) == match parse_dict(b, self.ind as int) {
                    Ok((es, e)) => Ok((seen + es, e)),
                    Err(x) => Err(x),
                },
                top ==> later_span(dict_info_span(b, start), info0) == later_span(
                    dict_info_span(b, self.ind as int),
                    span_view(self.info_ind),
                ),
            decreases b.len() - self.ind,
        {
            let p = self.ind;
            if p >= self.buf.len() {
                return Err(self.error_at(self.buf.len()));
            }
            if self.buf[p] == 101 {
                self.ind = p + 1;
                proof {
                    assert(seen + Seq::<(Seq<u8>, Value)>::empty() =~= seen);
                    assert(Element::Dict(v).model() == Value::Dict(dict_model(v@))) by {
                        assert(Element::Dict(v).model()->Dict_0 =~= dict_model(v@));
                    }
                }
                return Ok(Element::Dict(v));
            }
            if !(self.buf[p] >= 48 && self.buf[p] <= 57) {
                return Err(self.error_at(p));
            }
            let k = match self.read_byte_string() {
                Ok(k) => k,
                Err(e) => {
                    return Err(e);
                },
            };
            let q = self.ind;
            if q <= p || q > self.buf.len() {
                return Err(self.error_at(p));
            }
            let el = match self.call_element() {
                Ok(el) => el,
                Err(e) => {
                    return Err(e);
                },
            };
            let r = self.ind;
            if r <= q || r > self.buf.len() {
                return Err(self.error_at(q));
            }
            let is_info = bytes_equal(k.as_slice(), &[105u8, 110, 102, 111]);
            if top && is_info {
                self.info_ind = Some((q, r));
            }
            let ghost entry = (k@, el.model());
            proof {
                assert(dict_from(seen.push(entry)) == dict_insert(dict_from(seen), entry)) by {
                    assert(seen.push(entry).drop_last() =~= seen);
                }
                match parse_dict(b, r as int) {
                    Ok((es, e)) => {
                        assert(seen + (seq![entry] + es) =~= seen.push(entry) + es);
                    },
                    Err(_) => {},
                }
            }
            insert_entry(&mut v, k, el);
            proof {
                seen = seen.push(entry);
            }
        }
    }
}

/// A recorded `info` range lies within the buffer.
proof fn lemma_info_span_bounds(b: Seq<u8>, p: int)
    ensures
        dict_info_span(b, p) matches Some((s, t)) ==> 0 <= s <= t <= b.len(),
    decreases b.len() - p,
{
    if !(p < 0 || p >= b.len() || b[p] == 101 || !is_digit(b[p])) {
        match parse_bytes(b, p) {
            Err(_) => {},
            Ok((k, q)) => if !(q <= p || q > b.len()) {
                match parse_value(b, q) {
                    Err(_) => {},
                    Ok((v, r)) => if !(r <= q || r > b.len()) {
                        lemma_info_span_bounds(b, r);
                        assert(p < b.len() && b[p] != 101 && is_digit(b[p]));
                        assert(0 <= p);
                    },
                }
            },
        }
    }
}

impl Bencode {
    /// Decodes a buffer that holds exactly one element, and gives the byte range of the
    /// top-level dictionary's `info` value as it stands in the input.
    pub fn decode_with_info(buf: Vec<u8>) -> (r: Result<(Element, Option<(usize, usize)>), InvalidCharError>)
        ensures
            match decode_spec(buf@) {
                Ok(v) => r matches Ok((e, span)) && e.model() == v && span_view(span) == info_span(
                    buf@,
                ),
                Err(x) => r matches Err(err) && err.index == x && err.curr == byte_at(buf@, x),
            },
            r matches Ok((e, _)) ==> canonical(e.model()),
    {
        let ghost b = buf@;
        proof {
            lemma_parse_canonical(b, 0);
        }
        let mut inst = Bencode::new(buf);
        let top_dict = inst.buf.len() > 0 && inst.buf[0] == 100;
        let res = if top_dict {
            inst.ind = 1;
            inst.read_dict(true)
        } else {
            inst.call_element()
        };
        match res {
            Err(e) => Err(e),
            Ok(el) => {
                if inst.ind != inst.buf.len() {
                    return Err(inst.error_at(inst.ind));
                }
                let span = if top_dict {
                    inst.info_ind
                } else {
                    None
                };
                Ok((el, span))
            },
        }
    }

    /// The SHA-1 digest of bytes `[start, end)` of `buf`.
    pub fn calculate_hash(buf: &Vec<u8>, start: usize, end: usize) -> (r: [u8; 20])
        requires
            start <= end <= buf@.len(),
        ensures
            r@ == sha1_of(buf@.subrange(start as int, end as int)),
    {
        let info = copy_range(buf, start, end);
        sha1_digest(info.as_slice())
    }

    /// Decodes a buffer that holds exactly one element, and gives the info-hash: the SHA-1
    /// digest of the top-level `info` value's bytes as they stand in the input.
    pub fn decode(buf: Vec<u8>) -> (r: Result<(Element, Option<[u8; 20]>), InvalidCharError>)
        ensures
            match decode_spec(buf@) {
                Ok(v) => r matches Ok((e, h)) && e.model() == v && match info_span(buf@) {
                    Some((s, t)) => h matches Some(d) && d@ == sha1_of(buf@.subrange(s, t)),
                    None => h is None,
                },
                Err(x) => r matches Err(err) && err.index == x && err.curr == byte_at(buf@, x),
            },
            r matches Ok((e, _)) ==> canonical(e.model()),
    {
        let ghost b = buf@;
        let copy = copy_range(&buf, 0, buf.len());
        assert(copy@ =~= b);
        match Bencode::decode_with_info(buf) {
            Err(e) => Err(e),
            Ok((el, span)) => {
                proof {
                    if b.len() > 0 && b[0] == 100 {
                        lemma_info_span_bounds(b, 1);
                    }
                }
                match span {
                    None => Ok((el, None)),
                    Some((s, t)) => Ok((el, Some(Bencode::calculate_hash(&copy, s, t)))),
                }
            },
        }
    }
}

/// Every integer of `v` fits in 64 signed bits and every string is shorter than 10^19 bytes.
pub open spec fn fits(v: Value) -> bool
    decreases v,
{
    match v {
        Value::Int(i) => i64::MIN <= i <= i64::MAX,
        Value::Bytes(s) => s.len() < pow10(19),
        Value::List(vs) => forall|k: int| 0 <= k < vs.len() ==> fits(#[trigger] vs[k]),
        Value::Dict(es) => forall|k: int|
            0 <= k < es.len() ==> (#[trigger] es[k]).0.len() < pow10(19) && fits(es[k].1),
    }
}

/// The digits of `n` are digits, spell `n`, have no leading zero, and number at most `m`
/// when `n < 10^m`.
proof fn lemma_dec(n: nat, m: nat)
    ensures
        dec(n).len() >= 1,
        forall|k: int| 0 <= k < dec(n).len() ==> is_digit(#[trigger] dec(n)[k]),
        dec(n)[0] == 48 <==> n == 0,
        dec(n)[0] == 48 ==> dec(n).len() == 1,
        digits_value(dec(n)) == n,
        1 <= m && n < pow10(m) ==> dec(n).len() <= m,
    decreases n,
{
    if n >= 10 {
        let q = n / 10;
        let d = seq![(48 + n % 10) as u8];
        if m >= 1 && n < pow10(m) {
            assert(pow10(m) == 10 * pow10((m - 1) as nat));
            assert(q < pow10((m - 1) as nat)) by (nonlinear_arith)
                requires
                    n < 10 * pow10((m - 1) as nat),
                    q == n / 10,
            ;
            if m == 1 {
                assert(pow10(0) == 1);
            }
        }
        lemma_dec(q, (m - 1) as nat);
        assert((dec(q) + d).drop_last() =~= dec(q));
        assert(dec(n) == dec(q) + d);
        assert(dec(n)[0] == dec(q)[0]);
        assert forall|k: int| 0 <= k < dec(n).len() implies is_digit(#[trigger] dec(n)[k]) by {
            if k < dec(q).len() {
                assert(dec(n)[k] == dec(q)[k]);
            }
        }
        assert(n == q * 10 + n % 10);
        assert((dec(q) + d).last() == (48 + n % 10) as u8);
        assert(digits_value(dec(q) + d) == digits_value(dec(q)) * 10 + n % 10);
    } else {
        assert(seq![(48 + n) as u8].drop_last() =~= Seq::<u8>::empty());
        assert(digits_value(Seq::<u8>::empty()) == 0);
        assert(digits_value(dec(n)) == digits_value(Seq::<u8>::empty()) * 10 + n);
        if m >= 1 {
            lemma_pow10_mono(1, m);
            assert(pow10(1) == 10) by {
                assert(pow10(0) == 1);
            }
        }
    }
}

/// A run of digits followed by a non-digit ends where the run does.
proof fn lemma_digits_end_at(b: Seq<u8>, p: int, d: Seq<u8>)
    requires
        0 <= p,
        p + d.len() < b.len(),
        b.subrange(p, p + d.len()) == d,
        forall|k: int| 0 <= k < d.len() ==> is_digit(#[trigger] d[k]),
        !is_digit(b[p + d.len()]),
    ensures
        digits_end(b, p) == p + d.len(),
    decreases d.len(),
{
    if d.len() > 0 {
        assert(b[p] == d[0]);
        assert(b.subrange(p + 1, p + 1 + d.drop_first().len()) =~= d.drop_first());
        lemma_digits_end_at(b, p + 1, d.drop_first());
    }
}

/// The encoding of the first `n` values is the first value's, then the rest's.
proof fn lemma_enc_list_split(vs: Seq<Value>, n: int)
    requires
        1 <= n <= vs.len(),
    ensures
        enc_list(vs, n) == enc(vs[0]) + enc_list(vs.drop_first(), n - 1),
    decreases n,
{
    if n == 1 {
        assert(enc_list(vs, 0) == Seq::<u8>::empty());
        assert(enc_list(vs.drop_first(), 0) == Seq::<u8>::empty());
        assert(enc_list(vs, 1) =~= enc(vs[0]));
    } else {
        lemma_enc_list_split(vs, n - 1);
        assert(vs.drop_first()[n - 2] == vs[n - 1]);
        assert(enc_list(vs, n) =~= enc(vs[0]) + enc_list(vs.drop_first(), n - 1));
    }
}

/// The encoding of the first `n` entries is the first entry's, then the rest's.
proof fn lemma_enc_entries_split(es: Seq<(Seq<u8>, Value)>, n: int)
    requires
        1 <= n <= es.len(),
    ensures
        enc_entries(es, n) == enc_bytes(es[0].0) + enc(es[0].1) + enc_entries(es.drop_first(), n - 1),
    decreases n,
{
    if n == 1 {
        assert(enc_entries(es, 0) == Seq::<u8>::empty());
        assert(enc_entries(es.drop_first(), 0) == Seq::<u8>::empty());
        assert(enc_entries(es, 1) =~= enc_bytes(es[0].0) + enc(es[0].1));
    } else {
        lemma_enc_entries_split(es, n - 1);
        assert(es.drop_first()[n - 2] == es[n - 1]);
        assert(enc_entries(es, n) =~= enc_bytes(es[0].0) + enc(es[0].1) + enc_entries(
            es.drop_first(),
            n - 1,
        ));
    }
}

/// Reading the encoding of a byte string gives it back.
proof fn lemma_parse_bytes_enc(s: Seq<u8>, b: Seq<u8>, p: int)
    requires
        0 <= p,
        s.len() < pow10(19),
        p + enc_bytes(s).len() <= b.len(),
        b.subrange(p, p + enc_bytes(s).len()) == enc_bytes(s),
    ensures
        parse_bytes(b, p) == Ok::<(Seq<u8>, int), int>((s, p + enc_bytes(s).len())),
{
    let d = dec(s.len());
    lemma_dec(s.len(), 19);
    assert(enc_bytes(s)[d.len() as int] == 58);
    assert(b[p + d.len()] == enc_bytes(s)[d.len() as int]);
    assert(b.subrange(p, p + d.len()) =~= d) by {
        assert forall|k: int| 0 <= k < d.len() implies b.subrange(p, p + d.len())[k] == d[k] by {
            assert(b[p + k] == enc_bytes(s)[k]);
        }
    }
    lemma_digits_end_at(b, p, d);
    let e = p + d.len();
    assert(b.subrange(e + 1, e + 1 + s.len()) =~= s) by {
        assert forall|k: int| 0 <= k < s.len() implies b.subrange(e + 1, e + 1 + s.len())[k] == s[k] by {
            assert(b[e + 1 + k] == enc_bytes(s)[d.len() + 1 + k]);
        }
    }
}

/// Two adjacent parts of a slice.
proof fn lemma_slice_split(b: Seq<u8>, p: int, x: Seq<u8>, y: Seq<u8>)
    requires
        0 <= p,
        p + x.len() + y.len() <= b.len(),
        b.subrange(p, p + x.len() + y.len()) == x + y,
    ensures
        b.subrange(p, p + x.len()) == x,
        b.subrange(p + x.len(), p + x.len() + y.len()) == y,
{
    assert forall|k: int| 0 <= k < x.len() implies b.subrange(p, p + x.len())[k] == x[k] by {
        assert(b.subrange(p, p + x.len() + y.len())[k] == (x + y)[k]);
    }
    assert forall|k: int| 0 <= k < y.len() implies b.subrange(p + x.len(), p + x.len() + y.len())[k]
        == y[k] by {
        assert(b.subrange(p, p + x.len() + y.len())[x.len() + k] == (x + y)[x.len() + k]);
        assert(b.subrange(p, p + x.len() + y.len())[x.len() + k] == b[p + x.len() + k]);
        assert(b.subrange(p + x.len(), p + x.len() + y.len())[k] == b[p + x.len() + k]);
    }
    assert(b.subrange(p, p + x.len()) =~= x);
    assert(b.subrange(p + x.len(), p + x.len() + y.len()) =~= y);
}

/// An encoding opens with `i`, a digit, `l` or `d`.
proof fn lemma_enc_first(v: Value)
    requires
        fits(v),
    ensures
        enc(v).len() >= 2,
        enc(v)[0] == 105 || is_digit(enc(v)[0]) || enc(v)[0] == 108 || enc(v)[0] == 100,
        enc(v)[0] != 101,
{
    match v {
        Value::Bytes(s) => {
            lemma_dec(s.len(), 19);
            assert(enc(v)[0] == dec(s.len())[0]);
        },
        _ => {},
    }
}

/// Entries read in sorted order make themselves.
proof fn lemma_dict_from_sorted(es: Seq<(Seq<u8>, Value)>)
    requires
        keys_sorted(es),
    ensures
        dict_from(es) == es,
    decreases es.len(),
{
    if es.len() > 0 {
        let t = es.drop_last();
        assert forall|i: int, j: int| 0 <= i < j < t.len() implies key_lt(#[trigger] t[i].0, #[trigger] t[j].0) by {
            assert(t[i] == es[i] && t[j] == es[j]);
        }
        lemma_dict_from_sorted(t);
        lemma_insert_pos_end(t, es.last().0, 0);
        assert(t.insert(t.len() as int, es.last()) =~= es);
    }
}

/// A key above every key from `j` on goes at the end.
proof fn lemma_insert_pos_end(es: Seq<(Seq<u8>, Value)>, k: Seq<u8>, j: int)
    requires
        0 <= j <= es.len(),
        forall|i: int| j <= i < es.len() ==> key_lt(#[trigger] es[i].0, k),
    ensures
        insert_pos(es, k, j) == es.len(),
    decreases es.len() - j,
{
    if j < es.len() {
        lemma_insert_pos_end(es, k, j + 1);
    }
}

/// Reading the encoding of a value gives it back, with the position after it.
proof fn lemma_parse_enc(v: Value, b: Seq<u8>, p: int)
    requires
        0 <= p,
        fits(v),
        p + enc(v).len() <= b.len(),
        b.subrange(p, p + enc(v).len()) == enc(v),
    ensures
        parse_value(b, p) matches Ok((w, e)) && e == p + enc(v).len() && (canonical(v) ==> w == v),
    decreases v, 0int,
{
    assert(b[p] == enc(v)[0]);
    match v {
        Value::Int(i) => {
            reveal_with_fuel(pow10, 20);
            let n: nat = if i < 0 {
                (-i) as nat
            } else {
                i as nat
            };
            let d = dec(n);
            lemma_dec(n, 19);
            let ds = if i < 0 {
                p + 2
            } else {
                p + 1
            };
            if i < 0 {
                assert(b[p + 1] == enc(v)[1]);
            } else {
                assert(b[p + 1] == enc(v)[1]);
                assert(enc(v)[1] == d[0]);
            }
            assert(b.subrange(ds, ds + d.len()) =~= d) by {
                assert forall|k: int| 0 <= k < d.len() implies b.subrange(ds, ds + d.len())[k] == d[k] by {
                    assert(b[ds + k] == enc(v)[ds - p + k]);
                }
            }
            assert(b[ds + d.len()] == enc(v)[ds - p + d.len()]);
            lemma_digits_end_at(b, ds, d);
        },
        Value::Bytes(s) => {
            lemma_dec(s.len(), 19);
            assert(enc(v)[0] == dec(s.len())[0]);
            lemma_parse_bytes_enc(s, b, p);
        },
        Value::List(vs) => {
            let body = enc_list(vs, vs.len() as int);
            assert(enc(v) == seq![108u8] + (body + seq![101u8]));
            lemma_slice_split(b, p, seq![108u8], body + seq![101u8]);
            lemma_parse_list_enc(vs, b, p + 1);
        },
        Value::Dict(es) => {
            let body = enc_entries(es, es.len() as int);
            assert(enc(v) == seq![100u8] + (body + seq![101u8]));
            lemma_slice_split(b, p, seq![100u8], body + seq![101u8]);
            lemma_parse_dict_enc(es, b, p + 1);
            if canonical(v) {
                lemma_dict_from_sorted(es);
            }
        },
    }
}

/// Reading the encoding of list elements and the closing `e` gives the elements back.
proof fn lemma_parse_list_enc(vs: Seq<Value>, b: Seq<u8>, p: int)
    requires
        0 <= p,
        forall|k: int| 0 <= k < vs.len() ==> fits(#[trigger] vs[k]),
        p + enc_list(vs, vs.len() as int).len() + 1 <= b.len(),
        b.subrange(p, p + enc_list(vs, vs.len() as int).len() + 1) == enc_list(vs, vs.len() as int)
            + seq![101u8],
    ensures
        parse_list(b, p) matches Ok((ws, e)) && e == p + enc_list(vs, vs.len() as int).len() + 1
            && ((forall|k: int| 0 <= k < vs.len() ==> canonical(#[trigger] vs[k])) ==> ws == vs),
    decreases vs, 1int,
{
    let body = enc_list(vs, vs.len() as int);
    if vs.len() == 0 {
        assert(body.len() == 0);
        assert(b[p] == (body + seq![101u8])[0]);
        assert(vs =~= Seq::<Value>::empty());
    } else {
        let v0 = vs[0];
        let rest = vs.drop_first();
        lemma_enc_list_split(vs, vs.len() as int);
        let tail = enc_list(rest, rest.len() as int);
        assert(body + seq![101u8] == enc(v0) + (tail + seq![101u8]));
        lemma_slice_split(b, p, enc(v0), tail + seq![101u8]);
        lemma_enc_first(v0);
        assert(b[p] == enc(v0)[0]);
        lemma_parse_enc(v0, b, p);
        assert forall|k: int| 0 <= k < rest.len() implies fits(#[trigger] rest[k]) by {
            assert(rest[k] == vs[k + 1]);
        }
        lemma_parse_list_enc(rest, b, p + enc(v0).len());
        if forall|k: int| 0 <= k < vs.len() ==> canonical(#[trigger] vs[k]) {
            assert(canonical(vs[0]));
            assert forall|k: int| 0 <= k < rest.len() implies canonical(#[trigger] rest[k]) by {
                assert(rest[k] == vs[k + 1]);
            }
            assert(seq![v0] + rest =~= vs);
        }
    }
}

/// Reading the encoding of dictionary entries and the closing `e` gives the entries back,
/// in the order they stand.
proof fn lemma_parse_dict_enc(es: Seq<(Seq<u8>, Value)>, b: Seq<u8>, p: int)
    requires
        0 <= p,
        forall|k: int|
            0 <= k < es.len() ==> fits((#[trigger] es[k]).1) && es[k].0.len() < pow10(19),
        p + enc_entries(es, es.len() as int).len() + 1 <= b.len(),
        b.subrange(p, p + enc_entries(es, es.len() as int).len() + 1) == enc_entries(
            es,
            es.len() as int,
        ) + seq![101u8],
    ensures
        parse_dict(b, p) matches Ok((ws, e)) && e == p + enc_entries(es, es.len() as int).len() + 1
            && ((forall|k: int| 0 <= k < es.len() ==> canonical((#[trigger] es[k]).1)) ==> ws == es),
    decreases es, 1int,
{
    let body = enc_entries(es, es.len() as int);
    if es.len() == 0 {
        assert(body.len() == 0);
        assert(b[p] == (body + seq![101u8])[0]);
        assert(es =~= Seq::<(Seq<u8>, Value)>::empty());
    } else {
        let e0 = es[0];
        let rest = es.drop_first();
        lemma_enc_entries_split(es, es.len() as int);
        let tail = enc_entries(rest, rest.len() as int);
        let kb = enc_bytes(e0.0);
        assert(body + seq![101u8] == kb + (enc(e0.1) + (tail + seq![101u8])));
        lemma_slice_split(b, p, kb, enc(e0.1) + (tail + seq![101u8]));
        lemma_slice_split(b, p + kb.len(), enc(e0.1), tail + seq![101u8]);
        lemma_dec(e0.0.len(), 19);
        assert(b[p] == kb[0]);
        assert(kb[0] == dec(e0.0.len())[0]);
        lemma_parse_bytes_enc(e0.0, b, p);
        lemma_enc_first(e0.1);
        lemma_parse_enc(e0.1, b, p + kb.len());
        assert forall|k: int|
            0 <= k < rest.len() implies fits((#[trigger] rest[k]).1) && rest[k].0.len() < pow10(
                19,
            ) by {
            assert(rest[k] == es[k + 1]);
        }
        lemma_parse_dict_enc(rest, b, p + kb.len() + enc(e0.1).len());
        if forall|k: int| 0 <= k < es.len() ==> canonical((#[trigger] es[k]).1) {
            assert(canonical(es[0].1));
            assert forall|k: int| 0 <= k < rest.len() implies canonical((#[trigger] rest[k]).1) by {
                assert(rest[k] == es[k + 1]);
            }
            assert(seq![(e0.0, e0.1)] + rest =~= es);
        }
    }
}

/// Decoding the encoding of a value whose dictionaries have sorted keys gives the value back.
pub proof fn lemma_decode_encode(v: Value)
    requires
        canonical(v),
        fits(v),
    ensures
        decode_spec(enc(v)) == Ok::<Value, int>(v),
{
    assert(enc(v).subrange(0, enc(v).len() as int) =~= enc(v));
    lemma_parse_enc(v, enc(v), 0);
}

/// Encoding what was decoded from `b` gives `b` back when the dictionaries of `b` already
/// have their keys sorted, that is when `b` is the encoding of some such value `w`.
pub proof fn lemma_encode_decode(b: Seq<u8>, v: Value, w: Value)
    requires
        decode_spec(b) == Ok::<Value, int>(v),
        canonical(w),
        fits(w),
        b == enc(w),
    ensures
        enc(v) == b,
{
    lemma_decode_encode(w);
}

/// The encoding of the first `m` entries opens the encoding of the first `n`.
proof fn lemma_enc_entries_prefix(es: Seq<(Seq<u8>, Value)>, m: int, n: int)
    requires
        0 <= m <= n <= es.len(),
    ensures
        enc_entries(es, m).len() <= enc_entries(es, n).len(),
        enc_entries(es, n).subrange(0, enc_entries(es, m).len() as int) == enc_entries(es, m),
    decreases n,
{
    if m == n {
        assert(enc_entries(es, n).subrange(0, enc_entries(es, m).len() as int) =~= enc_entries(es, m));
    } else {
        lemma_enc_entries_prefix(es, m, n - 1);
        let a = enc_entries(es, n - 1);
        assert(enc_entries(es, n) == a + enc_bytes(es[n - 1].0) + enc(es[n - 1].1));
        assert(enc_entries(es, n).subrange(0, enc_entries(es, m).len() as int) =~= a.subrange(
            0,
            enc_entries(es, m).len() as int,
        ));
    }
}

/// The parts of the first entry of an encoded dictionary body, as read from `b` at `p`.
proof fn lemma_first_entry(es: Seq<(Seq<u8>, Value)>, b: Seq<u8>, p: int)
    requires
        0 <= p,
        es.len() > 0,
        forall|k: int|
            0 <= k < es.len() ==> fits((#[trigger] es[k]).1) && es[k].0.len() < pow10(19),
        p + enc_entries(es, es.len() as int).len() + 1 <= b.len(),
        b.subrange(p, p + enc_entries(es, es.len() as int).len() + 1) == enc_entries(
            es,
            es.len() as int,
        ) + seq![101u8],
    ensures
        ({
            let q = p + enc_bytes(es[0].0).len();
            let r = q + enc(es[0].1).len();
            let rest = es.drop_first();
            &&& p < b.len() && b[p] != 101 && is_digit(b[p])
            &&& parse_bytes(b, p) == Ok::<(Seq<u8>, int), int>((es[0].0, q))
            &&& parse_value(b, q) matches Ok((_, e)) && e == r
            &&& p < q < r <= b.len()
            &&& r + enc_entries(rest, rest.len() as int).len() + 1 <= b.len()
            &&& b.subrange(r, r + enc_entries(rest, rest.len() as int).len() + 1) == enc_entries(
                rest,
                rest.len() as int,
            ) + seq![101u8]
            &&& forall|k: int|
                0 <= k < rest.len() ==> fits((#[trigger] rest[k]).1) && rest[k].0.len() < pow10(19)
        }),
{
    let body = enc_entries(es, es.len() as int);
    let e0 = es[0];
    let rest = es.drop_first();
    lemma_enc_entries_split(es, es.len() as int);
    let tail = enc_entries(rest, rest.len() as int);
    let kb = enc_bytes(e0.0);
    assert(body + seq![101u8] == kb + (enc(e0.1) + (tail + seq![101u8])));
    lemma_slice_split(b, p, kb, enc(e0.1) + (tail + seq![101u8]));
    lemma_slice_split(b, p + kb.len(), enc(e0.1), tail + seq![101u8]);
    lemma_dec(e0.0.len(), 19);
    assert(b[p] == kb[0]);
    assert(kb[0] == dec(e0.0.len())[0]);
    lemma_parse_bytes_enc(e0.0, b, p);
    lemma_enc_first(e0.1);
    lemma_parse_enc(e0.1, b, p + kb.len());
    assert forall|k: int|
        0 <= k < rest.len() implies fits((#[trigger] rest[k]).1) && rest[k].0.len() < pow10(19) by {
        assert(rest[k] == es[k + 1]);
    }
}

/// A dictionary body without the key `info` records no `info` range.
proof fn lemma_dict_info_none(es: Seq<(Seq<u8>, Value)>, b: Seq<u8>, p: int)
    requires
        0 <= p,
        forall|k: int|
            0 <= k < es.len() ==> fits((#[trigger] es[k]).1) && es[k].0.len() < pow10(19)
                && es[k].0 != info_key(),
        p + enc_entries(es, es.len() as int).len() + 1 <= b.len(),
        b.subrange(p, p + enc_entries(es, es.len() as int).len() + 1) == enc_entries(
            es,
            es.len() as int,
        ) + seq![101u8],
    ensures
        dict_info_span(b, p) is None,
    decreases es.len(),
{
    if es.len() == 0 {
        assert(enc_entries(es, 0).len() == 0);
        assert(b[p] == (enc_entries(es, 0) + seq![101u8])[0]);
    } else {
        lemma_first_entry(es, b, p);
        let rest = es.drop_first();
        assert forall|k: int|
            0 <= k < rest.len() implies fits((#[trigger] rest[k]).1) && rest[k].0.len() < pow10(19)
                && rest[k].0 != info_key() by {
            assert(rest[k] == es[k + 1]);
        }
        lemma_dict_info_none(rest, b, p + enc_bytes(es[0].0).len() + enc(es[0].1).len());
    }
}

/// In a dictionary body whose only `info` key is entry `i`, the recorded range is that of
/// entry `i`'s value.
proof fn lemma_dict_info_at(es: Seq<(Seq<u8>, Value)>, b: Seq<u8>, p: int, i: int)
    requires
        0 <= p,
        0 <= i < es.len(),
        es[i].0 == info_key(),
        forall|k: int| 0 <= k < es.len() && k != i ==> (#[trigger] es[k]).0 != info_key(),
        forall|k: int|
            0 <= k < es.len() ==> fits((#[trigger] es[k]).1) && es[k].0.len() < pow10(19),
        p + enc_entries(es, es.len() as int).len() + 1 <= b.len(),
        b.subrange(p, p + enc_entries(es, es.len() as int).len() + 1) == enc_entries(
            es,
            es.len() as int,
        ) + seq![101u8],
    ensures
        ({
            let s = p + enc_entries(es, i).len() + enc_bytes(info_key()).len();
            dict_info_span(b, p) == Some((s, s + enc(es[i].1).len()))
        }),
    decreases es.len(),
{
    lemma_first_entry(es, b, p);
    let rest = es.drop_first();
    let r = p + enc_bytes(es[0].0).len() + enc(es[0].1).len();
    if i == 0 {
        assert forall|k: int|
            0 <= k < rest.len() implies fits((#[trigger] rest[k]).1) && rest[k].0.len() < pow10(19)
                && rest[k].0 != info_key() by {
            assert(rest[k] == es[k + 1]);
        }
        lemma_dict_info_none(rest, b, r);
        assert(enc_entries(es, 0).len() == 0);
    } else {
        assert(rest[i - 1] == es[i]);
        assert forall|k: int| 0 <= k < rest.len() && k != i - 1 implies (#[trigger] rest[k]).0
            != info_key() by {
            assert(rest[k] == es[k + 1]);
        }
        lemma_dict_info_at(rest, b, r, i - 1);
        lemma_enc_entries_split(es, i);
        assert(es[0].0 != info_key());
    }
}

/// The info-hash depends on the `info` value's bytes alone. A top-level dictionary written
/// with its entries in any order, and with keys in any order at any depth, decodes, and its
/// recorded `info` range holds exactly the bytes of the `info` value as written, so the
/// digest taken of that range is the same whatever the other entries are and however they
/// are ordered.
pub proof fn lemma_info_hash_independent(es: Seq<(Seq<u8>, Value)>, i: int)
    requires
        0 <= i < es.len(),
        es[i].0 == info_key(),
        forall|k: int| 0 <= k < es.len() && k != i ==> (#[trigger] es[k]).0 != info_key(),
        forall|k: int|
            0 <= k < es.len() ==> fits((#[trigger] es[k]).1) && es[k].0.len() < pow10(19),
    ensures
        decode_spec(enc(Value::Dict(es))) is Ok,
        info_span(enc(Value::Dict(es))) matches Some((s, t)) && 0 <= s <= t <= enc(
            Value::Dict(es),
        ).len() && enc(Value::Dict(es)).subrange(s, t) == enc(es[i].1),
{
    let b = enc(Value::Dict(es));
    let n = es.len() as int;
    let body = enc_entries(es, n);
    assert(b == seq![100u8] + (body + seq![101u8]));
    assert(b.subrange(0, b.len() as int) =~= b);
    lemma_slice_split(b, 0, seq![100u8], body + seq![101u8]);
    lemma_parse_dict_enc(es, b, 1);
    lemma_dict_info_at(es, b, 1, i);
    lemma_enc_entries_prefix(es, i + 1, n);
    let a = enc_entries(es, i);
    let kb = enc_bytes(info_key());
    let vb = enc(es[i].1);
    assert(enc_entries(es, i + 1) == a + kb + vb);
    let s: int = 1 + a.len() as int + kb.len() as int;
    assert(b.subrange(s, s + vb.len()) =~= vb) by {
        assert forall|k: int| 0 <= k < vb.len() implies b.subrange(s, s + vb.len())[k] == vb[k] by {
            assert(b[s + k] == body[a.len() + kb.len() + k]);
            assert(body[a.len() + kb.len() + k] == enc_entries(es, i + 1)[a.len() + kb.len() + k]);
        }
    }
}

/// The model of a list or dictionary element is that of its parts.
pub proof fn lemma_model_parts(e: &Element)
    ensures
        e matches Element::Dict(v) ==> e.model() == Value::Dict(dict_model(v@)),
        e matches Element::List(v) ==> e.model() == Value::List(list_model(v@)),
{
    match e {
        Element::Dict(v) => {
            assert(e.model()->Dict_0 =~= dict_model(v@));
        },
        Element::List(v) => {
            assert(e.model()->List_0 =~= list_model(v@));
        },
        _ => {},
    }
}

/// No key sorts before itself.
proof fn lemma_key_lt_irrefl(a: Seq<u8>)
    ensures
        !key_lt(a, a),
    decreases a.len(),
{
    if a.len() > 0 {
        lemma_key_lt_irrefl(a.drop_first());
    }
}

/// Of two different keys one sorts before the other.
proof fn lemma_key_lt_total(a: Seq<u8>, b: Seq<u8>)
    ensures
        a != b ==> key_lt(a, b) || key_lt(b, a),
    decreases a.len(),
{
    if a.len() > 0 && b.len() > 0 && a[0] == b[0] {
        lemma_key_lt_total(a.drop_first(), b.drop_first());
        if a.drop_first() == b.drop_first() {
            assert(a =~= seq![a[0]] + a.drop_first());
            assert(b =~= seq![b[0]] + b.drop_first());
        }
    } else if a.len() == 0 && b.len() == 0 {
        assert(a =~= b);
    }
}

/// The byte order is transitive.
proof fn lemma_key_lt_trans(a: Seq<u8>, b: Seq<u8>, c: Seq<u8>)
    requires
        key_lt(a, b),
        key_lt(b, c),
    ensures
        key_lt(a, c),
    decreases a.len(),
{
    if a.len() > 0 && b.len() > 0 && c.len() > 0 && a[0] == b[0] && b[0] == c[0] {
        lemma_key_lt_trans(a.drop_first(), b.drop_first(), c.drop_first());
    }
}

/// Where a key goes among sorted entries: after every smaller key, at the first key that
/// is not smaller.
proof fn lemma_insert_pos_sorted(es: Seq<(Seq<u8>, Value)>, k: Seq<u8>, j: int)
    requires
        0 <= j <= es.len(),
        keys_sorted(es),
        forall|i: int| 0 <= i < j ==> key_lt(#[trigger] es[i].0, k),
    ensures
        j <= insert_pos(es, k, j) <= es.len(),
        forall|i: int| 0 <= i < insert_pos(es, k, j) ==> key_lt(#[trigger] es[i].0, k),
        insert_pos(es, k, j) < es.len() ==> !key_lt(es[insert_pos(es, k, j)].0, k),
    decreases es.len() - j,
{
    if j < es.len() && key_lt(es[j].0, k) {
        lemma_insert_pos_sorted(es, k, j + 1);
    }
}

/// Adding an entry keeps the keys sorted, and every entry afterwards is the new one or an
/// old one.
proof fn lemma_dict_insert_sorted(es: Seq<(Seq<u8>, Value)>, e: (Seq<u8>, Value))
    requires
        keys_sorted(es),
    ensures
        keys_sorted(dict_insert(es, e)),
        forall|i: int|
            0 <= i < dict_insert(es, e).len() ==> #[trigger] dict_insert(es, e)[i] == e || es.contains(
                dict_insert(es, e)[i],
            ),
{
    lemma_insert_pos_sorted(es, e.0, 0);
    let j = insert_pos(es, e.0, 0);
    let d = dict_insert(es, e);
    if j < es.len() && es[j].0 == e.0 {
        assert forall|x: int, y: int| 0 <= x < y < d.len() implies key_lt(#[trigger] d[x].0, #[trigger] d[y].0) by {
            assert(d[x].0 == es[x].0);
            assert(d[y].0 == es[y].0);
        }
        assert forall|i: int| 0 <= i < d.len() implies #[trigger] d[i] == e || es.contains(d[i]) by {
            if i != j {
                assert(d[i] == es[i]);
            }
        }
    } else {
        if j < es.len() {
            lemma_key_lt_total(es[j].0, e.0);
        }
        assert forall|x: int, y: int| 0 <= x < y < d.len() implies key_lt(#[trigger] d[x].0, #[trigger] d[y].0) by {
            if y < j {
                assert(d[x] == es[x] && d[y] == es[y]);
            } else if y == j {
                assert(d[x] == es[x]);
            } else if x < j {
                assert(d[x] == es[x] && d[y] == es[y - 1]);
                lemma_key_lt_trans(es[x].0, e.0, es[j].0);
                if y - 1 > j {
                    lemma_key_lt_trans(es[x].0, es[j].0, es[y - 1].0);
                }
            } else if x == j {
                assert(d[y] == es[y - 1]);
                if y - 1 > j {
                    lemma_key_lt_trans(e.0, es[j].0, es[y - 1].0);
                }
            } else {
                assert(d[x] == es[x - 1] && d[y] == es[y - 1]);
            }
        }
        assert forall|i: int| 0 <= i < d.len() implies #[trigger] d[i] == e || es.contains(d[i]) by {
            if i < j {
                assert(d[i] == es[i]);
            } else if i > j {
                assert(d[i] == es[i - 1]);
            }
        }
    }
}

/// The dictionary that entries make has sorted keys, and values drawn from the entries.
proof fn lemma_dict_from_canonical(es: Seq<(Seq<u8>, Value)>)
    ensures
        keys_sorted(dict_from(es)),
        forall|i: int|
            0 <= i < dict_from(es).len() ==> es.contains(#[trigger] dict_from(es)[i]),
    decreases es.len(),
{
    if es.len() > 0 {
        let t = es.drop_last();
        lemma_dict_from_canonical(t);
        lemma_dict_insert_sorted(dict_from(t), es.last());
        let d = dict_from(es);
        assert forall|i: int| 0 <= i < d.len() implies es.contains(#[trigger] d[i]) by {
            if d[i] == es.last() {
                assert(es[es.len() - 1] == d[i]);
            } else {
                let w = choose|w: int| 0 <= w < dict_from(t).len() && dict_from(t)[w] == d[i];
                let z = choose|z: int| 0 <= z < t.len() && t[z] == dict_from(t)[w];
                assert(es[z] == d[i]);
            }
        }
    }
}

/// Whatever the parser reads is canonical.
proof fn lemma_parse_canonical(b: Seq<u8>, pos: int)
    ensures
        parse_value(b, pos) matches Ok((v, _)) ==> canonical(v),
    decreases b.len() - pos, 0int,
{
    if 0 <= pos < b.len() {
        if b[pos] == 108 {
            lemma_parse_list_canonical(b, pos + 1);
        } else if b[pos] == 100 {
            lemma_parse_dict_canonical(b, pos + 1);
            match parse_dict(b, pos + 1) {
                Ok((es, e)) => {
                    lemma_dict_from_canonical(es);
                    let d = dict_from(es);
                    assert forall|k: int| 0 <= k < d.len() implies canonical(#[trigger] d[k].1) by {
                        let z = choose|z: int| 0 <= z < es.len() && es[z] == d[k];
                    }
                },
                Err(_) => {},
            }
        }
    }
}

/// Every element a list reads is canonical.
proof fn lemma_parse_list_canonical(b: Seq<u8>, p: int)
    ensures
        parse_list(b, p) matches Ok((vs, _)) ==> forall|k: int| 0 <= k < vs.len() ==> canonical(#[trigger] vs[k]),
    decreases b.len() - p, 1int,
{
    if 0 <= p < b.len() && b[p] != 101 {
        lemma_parse_canonical(b, p);
        match parse_value(b, p) {
            Ok((v, q)) => if !(q <= p || q > b.len()) {
                lemma_parse_list_canonical(b, q);
                match parse_list(b, q) {
                    Ok((vs, r)) => {
                        assert forall|k: int| 0 <= k < (seq![v] + vs).len() implies canonical(#[trigger] (seq![v] + vs)[k]) by {
                            if k > 0 {
                                assert((seq![v] + vs)[k] == vs[k - 1]);
                            }
                        }
                    },
                    Err(_) => {},
                }
            },
            Err(_) => {},
        }
    }
}

/// Every value a dictionary reads is canonical.
proof fn lemma_parse_dict_canonical(b: Seq<u8>, p: int)
    ensures
        parse_dict(b, p) matches Ok((es, _)) ==> forall|k: int| 0 <= k < es.len() ==> canonical(#[trigger] es[k].1),
    decreases b.len() - p, 1int,
{
    if 0 <= p < b.len() && b[p] != 101 && is_digit(b[p]) {
        match parse_bytes(b, p) {
            Ok((key, q)) => if !(q <= p || q > b.len()) {
                lemma_parse_canonical(b, q);
                match parse_value(b, q) {
                    Ok((v, r)) => if !(r <= q || r > b.len()) {
                        lemma_parse_dict_canonical(b, r);
                        match parse_dict(b, r) {
                            Ok((es, t)) => {
                                assert forall|k: int| 0 <= k < (seq![(key, v)] + es).len() implies canonical(#[trigger] (seq![(key, v)] + es)[k].1) by {
                                    if k > 0 {
                                        assert((seq![(key, v)] + es)[k] == es[k - 1]);
                                    }
                                }
                            },
                            Err(_) => {},
                        }
                    },
                    Err(_) => {},
                }
            },
            Err(_) => {},
        }
    }
}

/// Powers of ten grow with the exponent.
proof fn lemma_pow10_mono(a: nat, b: nat)
    requires
        a <= b,
    ensures
        pow10(a) <= pow10(b),
    decreases b,
{
    if a < b {
        lemma_pow10_mono(a, (b - 1) as nat);
    }
}

} // verus!
