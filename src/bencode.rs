use vstd::prelude::*;

verus! {

/// The largest number of containers that may be nested inside one another.
pub const MAX_DEPTH: usize = 64;

/// A decoded bencode value.
#[derive(Debug, PartialEq, Eq)]
pub enum BencodeValue {
    Integer(i64),
    ByteString(Vec<u8>),
    List(Vec<BencodeValue>),
    /// Entries held in strictly ascending byte-wise key order.
    Dict(Vec<(Vec<u8>, BencodeValue)>),
}

/// The mathematical model of a bencode value.
pub enum Bval {
    Int(int),
    Bytes(Seq<u8>),
    List(Seq<Bval>),
    Dict(Seq<(Seq<u8>, Bval)>),
}

/// Why a buffer is not a bencoded value.
#[derive(Debug, Clone, Copy, PartialEq, Eq, Structural)]
pub enum DecodeError {
    UnexpectedEof,
    InvalidInteger,
    InvalidLength,
    DuplicateKey,
    UnterminatedContainer,
    TrailingData,
    NestingTooDeep,
}

impl BencodeValue {
    pub open spec fn view(&self) -> Bval
        decreases self,
    {
        match self {
            BencodeValue::Integer(n) => Bval::Int(*n as int),
            BencodeValue::ByteString(b) => Bval::Bytes(b@),
            BencodeValue::List(l) => Bval::List(list_view(l@)),
            BencodeValue::Dict(es) => Bval::Dict(entries_view(es@)),
        }
    }
}

pub open spec fn list_view(l: Seq<BencodeValue>) -> Seq<Bval>
    decreases l,
{
    if l.len() == 0 {
        Seq::empty()
    } else {
        list_view(l.drop_last()).push(l.last().view())
    }
}

pub open spec fn entries_view(es: Seq<(Vec<u8>, BencodeValue)>) -> Seq<(Seq<u8>, Bval)>
    decreases es,
{
    if es.len() == 0 {
        Seq::empty()
    } else {
        entries_view(es.drop_last()).push((es.last().0@, es.last().1.view()))
    }
}


pub open spec fn is_digit(c: u8) -> bool {
    48 <= c <= 57
}

/// The first position at or after `p` that does not hold a decimal digit.
pub open spec fn digit_end(s: Seq<u8>, p: int) -> int
    decreases s.len() - p,
{
    if 0 <= p < s.len() && is_digit(s[p]) {
        digit_end(s, p + 1)
    } else {
        p
    }
}

/// The number that a run of decimal digits denotes.
pub open spec fn digits_val(d: Seq<u8>) -> nat
    decreases d.len(),
{
    if d.len() == 0 {
        0
    } else {
        10 * digits_val(d.drop_last()) + (d.last() - 48) as nat
    }
}

pub open spec fn in_i64(n: int) -> bool {
    i64::MIN <= n <= i64::MAX
}

/// Byte-wise lexicographic comparison: negative, zero or positive.
pub open spec fn bytes_cmp(a: Seq<u8>, b: Seq<u8>) -> int
    decreases a.len(),
{
    if a.len() == 0 {
        if b.len() == 0 { 0 } else { -1 }
    } else if b.len() == 0 {
        1
    } else if a[0] != b[0] {
        if a[0] < b[0] { -1 } else { 1 }
    } else {
        bytes_cmp(a.drop_first(), b.drop_first())
    }
}

pub open spec fn bytes_lt(a: Seq<u8>, b: Seq<u8>) -> bool {
    bytes_cmp(a, b) < 0
}

/// Keys in strictly ascending byte-wise order.
pub open spec fn keys_sorted(es: Seq<(Seq<u8>, Bval)>) -> bool {
    forall|i: int, j: int| 0 <= i < j < es.len() ==> bytes_lt(#[trigger] es[i].0, #[trigger] es[j].0)
}

/// The first position from `i` on whose key is not below `k`.
pub open spec fn lower_bound(es: Seq<(Seq<u8>, Bval)>, k: Seq<u8>, i: int) -> int
    decreases es.len() - i,
{
    if 0 <= i < es.len() && bytes_lt(es[i].0, k) {
        lower_bound(es, k, i + 1)
    } else {
        i
    }
}

/// Adds an entry at its place in key order; `None` when the key is already there.
pub open spec fn dict_insert(es: Seq<(Seq<u8>, Bval)>, k: Seq<u8>, v: Bval) -> Option<Seq<(Seq<u8>, Bval)>> {
    let i = lower_bound(es, k, 0);
    if 0 <= i < es.len() && es[i].0 == k {
        None
    } else {
        Some(es.insert(i, (k, v)))
    }
}

/// An integer `i[-]digits e` whose `i` stands at `p`.
pub open spec fn parse_int(s: Seq<u8>, p: int) -> Result<(Bval, int), DecodeError> {
    let a = p + 1;
    if a >= s.len() {
        Err(DecodeError::UnexpectedEof)
    } else {
        let neg = s[a] == 45;
        let ds = if neg { a + 1 } else { a };
        let b = digit_end(s, ds);
        if b >= s.len() {
            Err(DecodeError::UnexpectedEof)
        } else if s[b] != 101 || b == ds {
            Err(DecodeError::InvalidInteger)
        } else if s[ds] == 48 && (b > ds + 1 || neg) {
            Err(DecodeError::InvalidInteger)
        } else {
            let m = digits_val(s.subrange(ds, b)) as int;
            let n = if neg { -m } else { m };
            if !in_i64(n) {
                Err(DecodeError::InvalidInteger)
            } else {
                Ok((Bval::Int(n), b + 1))
            }
        }
    }
}

/// A byte string `len:bytes` starting at `p`.
pub open spec fn parse_bytes(s: Seq<u8>, p: int) -> Result<(Seq<u8>, int), DecodeError> {
    let b = digit_end(s, p);
    if b >= s.len() {
        Err(DecodeError::UnexpectedEof)
    } else if b == p || s[b] != 58 {
        Err(DecodeError::InvalidLength)
    } else {
        let n = digits_val(s.subrange(p, b)) as int;
        if n > s.len() - (b + 1) {
            Err(DecodeError::UnexpectedEof)
        } else {
            Ok((s.subrange(b + 1, b + 1 + n), b + 1 + n))
        }
    }
}

/// The value that starts at `p`, inside `d` open containers, and where it ends.
pub open spec fn parse_value(s: Seq<u8>, p: int, d: nat) -> Result<(Bval, int), DecodeError>
    decreases s.len() - p, 0nat,
{
    if p < 0 || p >= s.len() {
        Err(DecodeError::UnexpectedEof)
    } else if s[p] == 105 {
        parse_int(s, p)
    } else if s[p] == 108 || s[p] == 100 {
        if d >= MAX_DEPTH {
            Err(DecodeError::NestingTooDeep)
        } else if s[p] == 108 {
            list_items(s, p + 1, d + 1, Seq::empty())
        } else {
            dict_items(s, p + 1, d + 1, Seq::empty())
        }
    } else {
        match parse_bytes(s, p) {
            Ok((b, q)) => Ok((Bval::Bytes(b), q)),
            Err(e) => Err(e),
        }
    }
}

/// The rest of a list from `p`, after the items `acc`.
pub open spec fn list_items(s: Seq<u8>, p: int, d: nat, acc: Seq<Bval>) -> Result<(Bval, int), DecodeError>
    decreases s.len() - p, 1nat,
{
    if p < 0 || p >= s.len() {
        Err(DecodeError::UnterminatedContainer)
    } else if s[p] == 101 {
        Ok((Bval::List(acc), p + 1))
    } else {
        match parse_value(s, p, d) {
            Ok((v, q)) => if p < q <= s.len() {
                list_items(s, q, d, acc.push(v))
            } else {
                Err(DecodeError::UnexpectedEof)
            },
            Err(e) => Err(e),
        }
    }
}

/// The rest of a dictionary from `p`, after the entries `acc`.
pub open spec fn dict_items(s: Seq<u8>, p: int, d: nat, acc: Seq<(Seq<u8>, Bval)>) -> Result<(Bval, int), DecodeError>
    decreases s.len() - p, 1nat,
{
    if p < 0 || p >= s.len() {
        Err(DecodeError::UnterminatedContainer)
    } else if s[p] == 101 {
        Ok((Bval::Dict(acc), p + 1))
    } else {
        match parse_bytes(s, p) {
            Ok((k, q)) => if p < q < s.len() {
                match parse_value(s, q, d) {
                    Ok((v, r)) => if q < r <= s.len() {
                        match dict_insert(acc, k, v) {
                            Some(acc2) => dict_items(s, r, d, acc2),
                            None => Err(DecodeError::DuplicateKey),
                        }
                    } else {
                        Err(DecodeError::UnexpectedEof)
                    },
                    Err(e) => Err(e),
                }
            } else {
                Err(DecodeError::UnexpectedEof)
            },
            Err(e) => Err(e),
        }
    }
}

/// What a whole buffer decodes to.
pub open spec fn decode_spec(s: Seq<u8>) -> Result<Bval, DecodeError> {
    match parse_value(s, 0, 0) {
        Ok((v, q)) => if q == s.len() {
            Ok(v)
        } else {
            Err(DecodeError::TrailingData)
        },
        Err(e) => Err(e),
    }
}


pub proof fn lemma_list_view(l: Seq<BencodeValue>)
    ensures
        list_view(l).len() == l.len(),
        forall|i: int| 0 <= i < l.len() ==> #[trigger] list_view(l)[i] == l[i].view(),
    decreases l.len(),
{
    if l.len() > 0 {
        lemma_list_view(l.drop_last());
    }
}

pub proof fn lemma_entries_view(es: Seq<(Vec<u8>, BencodeValue)>)
    ensures
        entries_view(es).len() == es.len(),
        forall|i: int| 0 <= i < es.len() ==> #[trigger] entries_view(es)[i] == (es[i].0@, es[i].1.view()),
    decreases es.len(),
{
    if es.len() > 0 {
        lemma_entries_view(es.drop_last());
    }
}

proof fn lemma_cmp_zero(a: Seq<u8>, b: Seq<u8>)
    ensures
        bytes_cmp(a, b) == 0 <==> a == b,
    decreases a.len(),
{
    if a.len() == 0 && b.len() == 0 {
        assert(a =~= b);
    }
    if a.len() > 0 && b.len() > 0 {
        lemma_cmp_zero(a.drop_first(), b.drop_first());
        if a[0] == b[0] && a.drop_first() == b.drop_first() {
            assert(a =~= seq![a[0]] + a.drop_first());
            assert(b =~= seq![b[0]] + b.drop_first());
        }
    }
}

/// Whether an executable parse result stands for a result of the grammar.
pub open spec fn models(r: Result<(BencodeValue, usize), DecodeError>, sp: Result<(Bval, int), DecodeError>) -> bool {
    match r {
        Ok((v, q)) => sp == Ok::<(Bval, int), DecodeError>((v@, q as int)),
        Err(e) => sp == Err::<(Bval, int), DecodeError>(e),
    }
}

/// Compares two byte strings byte-wise.
pub fn cmp_bytes(a: &Vec<u8>, b: &Vec<u8>) -> (r: i8)
    ensures
        r as int == bytes_cmp(a@, b@),
{
    let mut i: usize = 0;
    assert(a@.subrange(0, a@.len() as int) =~= a@);
    assert(b@.subrange(0, b@.len() as int) =~= b@);
    while i < a.len() && i < b.len()
        invariant
            i <= a.len(),
            i <= b.len(),
            bytes_cmp(a@, b@) == bytes_cmp(a@.subrange(i as int, a@.len() as int), b@.subrange(i as int, b@.len() as int)),
        decreases a.len() - i,
    {
        let ghost sa = a@.subrange(i as int, a@.len() as int);
        let ghost sb = b@.subrange(i as int, b@.len() as int);
        assert(sa.drop_first() =~= a@.subrange(i + 1, a@.len() as int));
        assert(sb.drop_first() =~= b@.subrange(i + 1, b@.len() as int));
        if a[i] != b[i] {
            assert(sa[0] == a@[i as int] && sb[0] == b@[i as int]);
            return if a[i] < b[i] { -1 } else { 1 };
        }
        i = i + 1;
    }
    let ghost sa = a@.subrange(i as int, a@.len() as int);
    let ghost sb = b@.subrange(i as int, b@.len() as int);
    assert(sa.len() == 0 || sb.len() == 0);
    if i < a.len() {
        1
    } else if i < b.len() {
        -1
    } else {
        0
    }
}

/// Copies `s[a..b]`.
fn copy_range(s: &Vec<u8>, a: usize, b: usize) -> (r: Vec<u8>)
    requires
        a <= b <= s.len(),
    ensures
        r@ == s@.subrange(a as int, b as int),
{
    let mut r: Vec<u8> = Vec::new();
    let mut i: usize = a;
    while i < b
        invariant
            a <= i <= b <= s.len(),
            r@ == s@.subrange(a as int, i as int),
        decreases b - i,
    {
        r.push(s[i]);
        assert(r@ =~= s@.subrange(a as int, i + 1));
        i = i + 1;
    }
    r
}

/// Reads the run of digits from `p`: where it ends and, unless it exceeds `cap`, its value.
fn scan_digits(s: &Vec<u8>, p: usize, cap: u64) -> (r: (usize, u64, bool))
    requires
        p <= s.len(),
    ensures
        r.0 as int == digit_end(s@, p as int),
        p <= r.0 <= s.len(),
        !r.2 ==> r.1 as nat == digits_val(s@.subrange(p as int, r.0 as int)) && r.1 <= cap,
        r.2 ==> digits_val(s@.subrange(p as int, r.0 as int)) > cap,
{
    let mut i: usize = p;
    let mut acc: u64 = 0;
    let mut big: bool = false;
    while i < s.len() && 48 <= s[i] && s[i] <= 57
        invariant
            p <= i <= s.len(),
            digit_end(s@, p as int) == digit_end(s@, i as int),
            !big ==> acc as nat == digits_val(s@.subrange(p as int, i as int)) && acc <= cap,
            big ==> digits_val(s@.subrange(p as int, i as int)) > cap,
        decreases s.len() - i,
    {
        let d: u64 = (s[i] - 48) as u64;
        let ghost prev = digits_val(s@.subrange(p as int, i as int));
        assert(s@.subrange(p as int, i + 1).drop_last() =~= s@.subrange(p as int, i as int));
        assert(digits_val(s@.subrange(p as int, i + 1)) == 10 * prev + d);
        if !big {
            if d <= cap && acc <= (cap - d) / 10 {
                assert(10 * acc + d <= cap) by (nonlinear_arith)
                    requires acc <= (cap - d) / 10, d <= cap;
                acc = acc * 10 + d;
            } else {
                assert(10 * acc + d > cap) by (nonlinear_arith)
                    requires !(d <= cap && acc <= (cap - d) / 10);
                big = true;
            }
        }
        i = i + 1;
    }
    (i, acc, big)
}

const INT_MAGNITUDE_CAP: u64 = 9223372036854775808;

fn decode_int(s: &Vec<u8>, p: usize) -> (r: Result<(BencodeValue, usize), DecodeError>)
    requires
        p < s.len(),
        s@[p as int] == 105,
    ensures
        models(r, parse_int(s@, p as int)),
        r matches Ok((_, q)) ==> p < q <= s.len(),
{
    let a = p + 1;
    if a >= s.len() {
        return Err(DecodeError::UnexpectedEof);
    }
    let neg = s[a] == 45;
    let ds = if neg { a + 1 } else { a };
    let (b, m, big) = scan_digits(s, ds, INT_MAGNITUDE_CAP);
    if b >= s.len() {
        return Err(DecodeError::UnexpectedEof);
    }
    if s[b] != 101 || b == ds {
        return Err(DecodeError::InvalidInteger);
    }
    if s[ds] == 48 && (b > ds + 1 || neg) {
        return Err(DecodeError::InvalidInteger);
    }
    if big {
        return Err(DecodeError::InvalidInteger);
    }
    let n: i64 = if neg {
        if m == INT_MAGNITUDE_CAP {
            i64::MIN
        } else {
            -(m as i64)
        }
    } else {
        if m > 9223372036854775807 {
            return Err(DecodeError::InvalidInteger);
        }
        m as i64
    };
    Ok((BencodeValue::Integer(n), b + 1))
}

fn decode_bytes(s: &Vec<u8>, p: usize) -> (r: Result<(Vec<u8>, usize), DecodeError>)
    requires
        p < s.len(),
    ensures
        match r {
            Ok((b, q)) => parse_bytes(s@, p as int) == Ok::<(Seq<u8>, int), DecodeError>((b@, q as int)),
            Err(e) => parse_bytes(s@, p as int) == Err::<(Seq<u8>, int), DecodeError>(e),
        },
        r matches Ok((_, q)) ==> p < q <= s.len(),
{
    let (b, n, big) = scan_digits(s, p, s.len() as u64);
    if b >= s.len() {
        return Err(DecodeError::UnexpectedEof);
    }
    if b == p || s[b] != 58 {
        return Err(DecodeError::InvalidLength);
    }
    if big || n as usize > s.len() - (b + 1) {
        return Err(DecodeError::UnexpectedEof);
    }
    let end = b + 1 + n as usize;
    Ok((copy_range(s, b + 1, end), end))
}


/// Adds `(k, v)` at its place in key order; `false`, and `es` as it was, when `k` is already a key.
fn insert_entry(es: &mut Vec<(Vec<u8>, BencodeValue)>, k: Vec<u8>, v: BencodeValue) -> (added: bool)
    ensures
        match dict_insert(entries_view(old(es)@), k@, v@) {
            Some(n) => added && entries_view(final(es)@) == n,
            None => !added,
        },
{
    proof {
        lemma_entries_view(es@);
    }
    let ghost ev = entries_view(es@);
    let mut i: usize = 0;
    while i < es.len() && cmp_bytes(&es[i].0, &k) < 0
        invariant
            i <= es.len(),
            ev == entries_view(es@),
            ev.len() == es.len(),
            forall|j: int| 0 <= j < es.len() ==> #[trigger] ev[j] == (es@[j].0@, es@[j].1.view()),
            lower_bound(ev, k@, 0) == lower_bound(ev, k@, i as int),
        decreases es.len() - i,
    {
        i = i + 1;
    }
    if i < es.len() && cmp_bytes(&es[i].0, &k) == 0 {
        proof {
            lemma_cmp_zero(es@[i as int].0@, k@);
        }
        return false;
    }
    proof {
        if i < es.len() {
            lemma_cmp_zero(es@[i as int].0@, k@);
        }
    }
    let ghost kv = k@;
    let ghost vv = v@;
    es.insert(i, (k, v));
    proof {
        lemma_entries_view(es@);
        assert(entries_view(es@) =~= ev.insert(i as int, (kv, vv)));
    }
    true
}

fn decode_value(s: &Vec<u8>, p: usize, d: usize) -> (r: Result<(BencodeValue, usize), DecodeError>)
    requires
        p <= s.len(),
        d <= MAX_DEPTH,
    ensures
        models(r, parse_value(s@, p as int, d as nat)),
        r matches Ok((_, q)) ==> p < q <= s.len(),
    decreases s.len() - p, 0nat,
{
    if p >= s.len() {
        return Err(DecodeError::UnexpectedEof);
    }
    if s[p] == 105 {
        decode_int(s, p)
    } else if s[p] == 108 || s[p] == 100 {
        if d >= MAX_DEPTH {
            Err(DecodeError::NestingTooDeep)
        } else if s[p] == 108 {
            decode_list(s, p + 1, d + 1)
        } else {
            decode_dict(s, p + 1, d + 1)
        }
    } else {
        match decode_bytes(s, p) {
            Ok((b, q)) => Ok((BencodeValue::ByteString(b), q)),
            Err(e) => Err(e),
        }
    }
}

fn decode_list(s: &Vec<u8>, p: usize, d: usize) -> (r: Result<(BencodeValue, usize), DecodeError>)
    requires
        1 <= p <= s.len(),
        d <= MAX_DEPTH,
    ensures
        models(r, list_items(s@, p as int, d as nat, Seq::empty())),
        r matches Ok((_, q)) ==> p < q <= s.len(),
    decreases s.len() - p, 1nat,
{
    let mut items: Vec<BencodeValue> = Vec::new();
    let mut q: usize = p;
    assert(list_view(items@) =~= Seq::<Bval>::empty());
    loop
        invariant
            p <= q <= s.len(),
            d <= MAX_DEPTH,
            list_items(s@, p as int, d as nat, Seq::empty()) == list_items(s@, q as int, d as nat, list_view(items@)),
        decreases s.len() - q,
    {
        if q >= s.len() {
            return Err(DecodeError::UnterminatedContainer);
        }
        if s[q] == 101 {
            return Ok((BencodeValue::List(items), q + 1));
        }
        match decode_value(s, q, d) {
            Ok((v, r)) => {
                let ghost before = items@;
                items.push(v);
                assert(items@.drop_last() =~= before);
                q = r;
            },
            Err(e) => {
                return Err(e);
            },
        }
    }
}

fn decode_dict(s: &Vec<u8>, p: usize, d: usize) -> (r: Result<(BencodeValue, usize), DecodeError>)
    requires
        1 <= p <= s.len(),
        d <= MAX_DEPTH,
    ensures
        models(r, dict_items(s@, p as int, d as nat, Seq::empty())),
        r matches Ok((_, q)) ==> p < q <= s.len(),
    decreases s.len() - p, 1nat,
{
    let mut es: Vec<(Vec<u8>, BencodeValue)> = Vec::new();
    let mut q: usize = p;
    assert(entries_view(es@) =~= Seq::<(Seq<u8>, Bval)>::empty());
    loop
        invariant
            p <= q <= s.len(),
            d <= MAX_DEPTH,
            dict_items(s@, p as int, d as nat, Seq::empty()) == dict_items(s@, q as int, d as nat, entries_view(es@)),
        decreases s.len() - q,
    {
        if q >= s.len() {
            return Err(DecodeError::UnterminatedContainer);
        }
        if s[q] == 101 {
            return Ok((BencodeValue::Dict(es), q + 1));
        }
        let (k, kq) = match decode_bytes(s, q) {
            Ok(x) => x,
            Err(e) => {
                return Err(e);
            },
        };
        if kq >= s.len() {
            return Err(DecodeError::UnexpectedEof);
        }
        let (v, r) = match decode_value(s, kq, d) {
            Ok(x) => x,
            Err(e) => {
                return Err(e);
            },
        };
        if !insert_entry(&mut es, k, v) {
            return Err(DecodeError::DuplicateKey);
        }
        q = r;
    }
}

/// Decodes a whole buffer as one bencoded value.
pub fn decode(s: &Vec<u8>) -> (r: Result<BencodeValue, DecodeError>)
    ensures
        match r {
            Ok(v) => decode_spec(s@) == Ok::<Bval, DecodeError>(v@),
            Err(e) => decode_spec(s@) == Err::<Bval, DecodeError>(e),
        },
        r matches Ok(v) ==> well_formed(v@),
{
    proof {
        lemma_decoded_well_formed(s@);
    }
    match decode_value(s, 0, 0) {
        Ok((v, q)) => if q == s.len() {
            Ok(v)
        } else {
            Err(DecodeError::TrailingData)
        },
        Err(e) => Err(e),
    }
}


/// Decimal digits of `n`, without leading zeros.
pub open spec fn nat_text(n: nat) -> Seq<u8>
    decreases n,
{
    if n < 10 {
        seq![(48 + n) as u8]
    } else {
        nat_text(n / 10).push((48 + n % 10) as u8)
    }
}

pub open spec fn int_text(n: int) -> Seq<u8> {
    if n < 0 {
        seq![45u8] + nat_text((-n) as nat)
    } else {
        nat_text(n as nat)
    }
}

pub open spec fn bytes_text(b: Seq<u8>) -> Seq<u8> {
    nat_text(b.len()) + seq![58u8] + b
}

/// The canonical encoding of a value.
pub open spec fn encode_spec(v: Bval) -> Seq<u8>
    decreases v,
{
    match v {
        Bval::Int(n) => seq![105u8] + int_text(n) + seq![101u8],
        Bval::Bytes(b) => bytes_text(b),
        Bval::List(l) => seq![108u8] + encode_list(l) + seq![101u8],
        Bval::Dict(es) => seq![100u8] + encode_entries(es) + seq![101u8],
    }
}

pub open spec fn encode_list(l: Seq<Bval>) -> Seq<u8>
    decreases l,
{
    if l.len() == 0 {
        Seq::empty()
    } else {
        encode_spec(l[0]) + encode_list(l.subrange(1, l.len() as int))
    }
}

pub open spec fn encode_entries(es: Seq<(Seq<u8>, Bval)>) -> Seq<u8>
    decreases es,
{
    if es.len() == 0 {
        Seq::empty()
    } else {
        bytes_text(es[0].0) + encode_spec(es[0].1) + encode_entries(es.subrange(1, es.len() as int))
    }
}

/// Integers fit in 64 bits, dictionary keys ascend, and containers nest at most `budget` deep.
pub open spec fn wf_at(v: Bval, budget: nat) -> bool
    decreases v,
{
    match v {
        Bval::Int(n) => in_i64(n),
        Bval::Bytes(_) => true,
        Bval::List(l) => budget > 0 && forall|i: int| 0 <= i < l.len() ==> wf_at(#[trigger] l[i], (budget - 1) as nat),
        Bval::Dict(es) => budget > 0 && keys_sorted(es) && forall|i: int|
            0 <= i < es.len() ==> wf_at(#[trigger] es[i].1, (budget - 1) as nat),
    }
}

/// A value that the decoder can give back: the validity of a value tree.
pub open spec fn well_formed(v: Bval) -> bool {
    wf_at(v, MAX_DEPTH as nat)
}


fn write_nat(out: &mut Vec<u8>, n: u64)
    ensures
        final(out)@ == old(out)@ + nat_text(n as nat),
    decreases n,
{
    if n >= 10 {
        write_nat(out, n / 10);
    }
    out.push((48 + n % 10) as u8);
    assert(out@ =~= old(out)@ + nat_text(n as nat));
}

fn write_bytes(out: &mut Vec<u8>, b: &Vec<u8>)
    ensures
        final(out)@ == old(out)@ + bytes_text(b@),
{
    write_nat(out, b.len() as u64);
    out.push(58);
    let mut i: usize = 0;
    let ghost start = out@;
    while i < b.len()
        invariant
            i <= b.len(),
            start == old(out)@ + nat_text(b@.len()) + seq![58u8],
            out@ == start + b@.subrange(0, i as int),
        decreases b.len() - i,
    {
        out.push(b[i]);
        assert(out@ =~= start + b@.subrange(0, i + 1));
        i = i + 1;
    }
    assert(b@.subrange(0, b@.len() as int) =~= b@);
    assert(out@ =~= old(out)@ + bytes_text(b@));
}

fn encode_into(v: &BencodeValue, out: &mut Vec<u8>)
    ensures
        final(out)@ == old(out)@ + encode_spec(v@),
    decreases v,
{
    match v {
        BencodeValue::Integer(n) => {
            out.push(105);
            if *n < 0 {
                out.push(45);
                let m: u64 = if *n == i64::MIN { 9223372036854775808 } else { (-*n) as u64 };
                write_nat(out, m);
            } else {
                write_nat(out, *n as u64);
            }
            out.push(101);
            assert(out@ =~= old(out)@ + encode_spec(v@));
        },
        BencodeValue::ByteString(b) => {
            write_bytes(out, b);
        },
        BencodeValue::List(l) => {
            out.push(108);
            let ghost lv = list_view(l@);
            proof {
                lemma_list_view(l@);
                assert(lv.subrange(0, lv.len() as int) =~= lv);
            }
            let mut i: usize = 0;
            while i < l.len()
                invariant
                    i <= l.len(),
                    lv == list_view(l@),
                    *v == BencodeValue::List(*l),
                    lv.len() == l.len(),
                    forall|j: int| 0 <= j < l.len() ==> #[trigger] lv[j] == l@[j].view(),
                    old(out)@ + seq![108u8] + encode_list(lv) == out@ + encode_list(lv.subrange(i as int, lv.len() as int)),
                decreases l.len() - i,
            {
                let ghost rest = lv.subrange(i as int, lv.len() as int);
                let ghost before = out@;
                assert(rest.subrange(1, rest.len() as int) =~= lv.subrange(i + 1, lv.len() as int));
                assert(rest[0] == l@[i as int].view());
                proof {
                    assert(decreases_to!(*l => l@));
                    assert(decreases_to!(l@ => l@[i as int]));
                }
                let item = &l[i];
                proof {
                    assert(*item == l@[i as int]);
                    assert(decreases_to!(*v => v->List_0));
                }
                encode_into(item, out);
                assert(before + encode_list(rest) =~= out@ + encode_list(lv.subrange(i + 1, lv.len() as int)));
                i = i + 1;
            }
            out.push(101);
            assert(lv.subrange(i as int, lv.len() as int) =~= Seq::<Bval>::empty());
            assert(out@ =~= old(out)@ + encode_spec(v@));
        },
        BencodeValue::Dict(es) => {
            out.push(100);
            let ghost ev = entries_view(es@);
            proof {
                lemma_entries_view(es@);
                assert(ev.subrange(0, ev.len() as int) =~= ev);
            }
            let mut i: usize = 0;
            while i < es.len()
                invariant
                    i <= es.len(),
                    ev == entries_view(es@),
                    *v == BencodeValue::Dict(*es),
                    ev.len() == es.len(),
                    forall|j: int| 0 <= j < es.len() ==> #[trigger] ev[j] == (es@[j].0@, es@[j].1.view()),
                    old(out)@ + seq![100u8] + encode_entries(ev) == out@ + encode_entries(ev.subrange(i as int, ev.len() as int)),
                decreases es.len() - i,
            {
                let ghost rest = ev.subrange(i as int, ev.len() as int);
                let ghost before = out@;
                assert(rest.subrange(1, rest.len() as int) =~= ev.subrange(i + 1, ev.len() as int));
                assert(rest[0] == (es@[i as int].0@, es@[i as int].1.view()));
                write_bytes(out, &es[i].0);
                proof {
                    assert(decreases_to!(*es => es@));
                    assert(decreases_to!(es@ => es@[i as int]));
                    assert(decreases_to!(es@[i as int] => es@[i as int].1));
                    assert(decreases_to!(*v => v->Dict_0));
                }
                let item = &es[i].1;
                assert(*item == es@[i as int].1);
                encode_into(item, out);
                assert(before + encode_entries(rest) =~= out@ + encode_entries(ev.subrange(i + 1, ev.len() as int)));
                i = i + 1;
            }
            out.push(101);
            assert(ev.subrange(i as int, ev.len() as int) =~= Seq::<(Seq<u8>, Bval)>::empty());
            assert(out@ =~= old(out)@ + encode_spec(v@));
        },
    }
}

/// The canonical bencoding of a well-formed value: dictionary entries come out in
/// ascending key order, and the bytes decode back to the value.
pub fn encode(v: &BencodeValue) -> (r: Vec<u8>)
    requires
        well_formed(v@),
    ensures
        r@ == encode_spec(v@),
        decode_spec(r@) == Ok::<Bval, DecodeError>(v@),
{
    proof {
        lemma_round_trip(v@);
    }
    let mut out: Vec<u8> = Vec::new();
    encode_into(v, &mut out);
    assert(out@ =~= encode_spec(v@));
    out
}


/// `t` stands in `s` from position `p` on.
pub open spec fn at(s: Seq<u8>, p: int, t: Seq<u8>) -> bool {
    0 <= p && p + t.len() <= s.len() && s.subrange(p, p + t.len()) == t
}

proof fn lemma_at_split(s: Seq<u8>, p: int, a: Seq<u8>, b: Seq<u8>)
    requires
        at(s, p, a + b),
    ensures
        at(s, p, a),
        at(s, p + a.len(), b),
{
    let w = s.subrange(p, p + a.len() + b.len());
    assert forall|i: int| 0 <= i < a.len() implies s[p + i] == a[i] by {
        assert(w[i] == (a + b)[i]);
    }
    assert forall|i: int| 0 <= i < b.len() implies s[p + a.len() + i] == b[i] by {
        assert(w[a.len() + i] == (a + b)[a.len() + i]);
    }
    assert(s.subrange(p, p + a.len()) =~= a);
    assert(s.subrange(p + a.len(), p + a.len() + b.len()) =~= b);
}

proof fn lemma_nat_text(n: nat)
    ensures
        nat_text(n).len() >= 1,
        forall|i: int| 0 <= i < nat_text(n).len() ==> is_digit(#[trigger] nat_text(n)[i]),
        digits_val(nat_text(n)) == n,
        nat_text(n)[0] == 48 ==> n == 0,
    decreases n,
{
    if n >= 10 {
        lemma_nat_text(n / 10);
        assert(nat_text(n).drop_last() =~= nat_text(n / 10));
        assert(nat_text(n).last() == (48 + n % 10) as u8);
        assert(nat_text(n).last() - 48 == n % 10);
        assert(n == 10 * (n / 10) + n % 10);
        assert(digits_val(nat_text(n)) == 10 * digits_val(nat_text(n / 10)) + n % 10);
    } else {
        assert(digits_val(nat_text(n).drop_last()) == 0);
        assert(nat_text(n).drop_last() =~= Seq::<u8>::empty());
        assert(nat_text(n).last() - 48 == n);
    }
}

proof fn lemma_digit_end(s: Seq<u8>, i: int, e: int)
    requires
        0 <= i <= e < s.len(),
        forall|j: int| i <= j < e ==> is_digit(#[trigger] s[j]),
        !is_digit(s[e]),
    ensures
        digit_end(s, i) == e,
    decreases e - i,
{
    if i < e {
        lemma_digit_end(s, i + 1, e);
    }
}

/// A run of digits `t` at `p`, followed by a byte that is no digit, is read as `t`.
proof fn lemma_digit_run(s: Seq<u8>, p: int, t: Seq<u8>)
    requires
        at(s, p, t),
        p + t.len() < s.len(),
        forall|i: int| 0 <= i < t.len() ==> is_digit(#[trigger] t[i]),
        !is_digit(s[p + t.len()]),
    ensures
        digit_end(s, p) == p + t.len(),
        s.subrange(p, p + t.len()) == t,
{
    assert forall|j: int| p <= j < p + t.len() implies is_digit(#[trigger] s[j]) by {
        assert(s.subrange(p, p + t.len())[j - p] == s[j]);
    }
    lemma_digit_end(s, p, p + t.len());
}

proof fn lemma_rt_bytes(s: Seq<u8>, p: int, b: Seq<u8>)
    requires
        at(s, p, bytes_text(b)),
    ensures
        parse_bytes(s, p) == Ok::<(Seq<u8>, int), DecodeError>((b, p + bytes_text(b).len())),
{
    let t = nat_text(b.len());
    lemma_nat_text(b.len());
    lemma_at_split(s, p, t + seq![58u8], b);
    lemma_at_split(s, p, t, seq![58u8]);
    assert(s.subrange(p + t.len(), p + t.len() + 1)[0] == s[p + t.len()]);
    lemma_digit_run(s, p, t);
}

proof fn lemma_rt_int(s: Seq<u8>, p: int, n: int)
    requires
        in_i64(n),
        at(s, p, seq![105u8] + int_text(n) + seq![101u8]),
    ensures
        parse_int(s, p) == Ok::<(Bval, int), DecodeError>((Bval::Int(n), p + int_text(n).len() + 2)),
{
    let it = int_text(n);
    lemma_at_split(s, p, seq![105u8] + it, seq![101u8]);
    lemma_at_split(s, p, seq![105u8], it);
    assert(s.subrange(p + 1 + it.len(), p + 2 + it.len())[0] == s[p + 1 + it.len()]);
    let m: nat = if n < 0 { (-n) as nat } else { n as nat };
    let t = nat_text(m);
    lemma_nat_text(m);
    if n < 0 {
        lemma_at_split(s, p + 1, seq![45u8], t);
        assert(s.subrange(p + 1, p + 2)[0] == s[p + 1]);
        assert(it =~= seq![45u8] + t);
        lemma_digit_run(s, p + 2, t);
        assert(s.subrange(p + 2, p + 2 + t.len())[0] == s[p + 2]);
    } else {
        assert(it == t);
        assert(s.subrange(p + 1, p + 1 + t.len())[0] == s[p + 1]);
        lemma_digit_run(s, p + 1, t);
    }
}

proof fn lemma_first_byte(v: Bval)
    ensures
        encode_spec(v).len() >= 1,
        encode_spec(v)[0] != 101,
{
    match v {
        Bval::Bytes(b) => {
            lemma_nat_text(b.len());
        },
        _ => {},
    }
}

proof fn lemma_lower_bound_end(es: Seq<(Seq<u8>, Bval)>, k: Seq<u8>, i: int)
    requires
        0 <= i <= es.len(),
        forall|j: int| i <= j < es.len() ==> bytes_lt(#[trigger] es[j].0, k),
    ensures
        lower_bound(es, k, i) == es.len(),
    decreases es.len() - i,
{
    if i < es.len() {
        lemma_lower_bound_end(es, k, i + 1);
    }
}

proof fn lemma_rt_value(s: Seq<u8>, p: int, d: nat, v: Bval)
    requires
        d <= MAX_DEPTH,
        wf_at(v, (MAX_DEPTH - d) as nat),
        at(s, p, encode_spec(v)),
    ensures
        parse_value(s, p, d) == Ok::<(Bval, int), DecodeError>((v, p + encode_spec(v).len())),
    decreases v,
{
    let e = encode_spec(v);
    lemma_first_byte(v);
    assert(s.subrange(p, p + e.len())[0] == s[p]);
    match v {
        Bval::Int(n) => {
            lemma_rt_int(s, p, n);
        },
        Bval::Bytes(b) => {
            lemma_nat_text(b.len());
            lemma_rt_bytes(s, p, b);
        },
        Bval::List(l) => {
            assert(e =~= seq![108u8] + (encode_list(l) + seq![101u8]));
            lemma_at_split(s, p, seq![108u8], encode_list(l) + seq![101u8]);
            lemma_rt_list(s, p + 1, d + 1, Seq::empty(), l);
            assert(Seq::<Bval>::empty() + l =~= l);
        },
        Bval::Dict(es) => {
            assert(e =~= seq![100u8] + (encode_entries(es) + seq![101u8]));
            lemma_at_split(s, p, seq![100u8], encode_entries(es) + seq![101u8]);
            assert(Seq::<(Seq<u8>, Bval)>::empty() + es =~= es);
            lemma_rt_dict(s, p + 1, d + 1, Seq::empty(), es);
        },
    }
}

proof fn lemma_rt_list(s: Seq<u8>, q: int, d: nat, acc: Seq<Bval>, rest: Seq<Bval>)
    requires
        1 <= d <= MAX_DEPTH,
        forall|i: int| 0 <= i < rest.len() ==> wf_at(#[trigger] rest[i], (MAX_DEPTH - d) as nat),
        at(s, q, encode_list(rest) + seq![101u8]),
    ensures
        list_items(s, q, d, acc) == Ok::<(Bval, int), DecodeError>((Bval::List(acc + rest), q + encode_list(rest).len() + 1)),
    decreases rest,
{
    let el = encode_list(rest);
    assert(s.subrange(q, q + el.len() + 1)[0] == s[q]);
    if rest.len() == 0 {
        assert(acc + rest =~= acc);
    } else {
        let v = rest[0];
        let tail = rest.subrange(1, rest.len() as int);
        let ev = encode_spec(v);
        lemma_first_byte(v);
        assert(el + seq![101u8] =~= ev + (encode_list(tail) + seq![101u8]));
        lemma_at_split(s, q, ev, encode_list(tail) + seq![101u8]);
        lemma_rt_value(s, q, d, v);
        assert forall|i: int| 0 <= i < tail.len() implies wf_at(#[trigger] tail[i], (MAX_DEPTH - d) as nat) by {
            assert(tail[i] == rest[i + 1]);
        }
        lemma_rt_list(s, q + ev.len(), d, acc.push(v), tail);
        assert(acc.push(v) + tail =~= acc + rest);
    }
}

proof fn lemma_rt_dict(s: Seq<u8>, q: int, d: nat, acc: Seq<(Seq<u8>, Bval)>, rest: Seq<(Seq<u8>, Bval)>)
    requires
        1 <= d <= MAX_DEPTH,
        forall|i: int| 0 <= i < rest.len() ==> wf_at(#[trigger] rest[i].1, (MAX_DEPTH - d) as nat),
        keys_sorted(acc + rest),
        at(s, q, encode_entries(rest) + seq![101u8]),
    ensures
        dict_items(s, q, d, acc) == Ok::<(Bval, int), DecodeError>((Bval::Dict(acc + rest), q + encode_entries(rest).len() + 1)),
    decreases rest,
{
    let ee = encode_entries(rest);
    assert(s.subrange(q, q + ee.len() + 1)[0] == s[q]);
    if rest.len() == 0 {
        assert(acc + rest =~= acc);
    } else {
        let (k, v) = rest[0];
        let tail = rest.subrange(1, rest.len() as int);
        let kt = bytes_text(k);
        let ev = encode_spec(v);
        lemma_nat_text(k.len());
        assert(ee + seq![101u8] =~= kt + (ev + (encode_entries(tail) + seq![101u8])));
        lemma_at_split(s, q, kt, ev + (encode_entries(tail) + seq![101u8]));
        lemma_at_split(s, q + kt.len(), ev, encode_entries(tail) + seq![101u8]);
        lemma_rt_bytes(s, q, k);
        lemma_first_byte(v);
        assert(decreases_to!(rest => rest[0]));
        assert(decreases_to!(rest[0] => rest[0].1));
        lemma_rt_value(s, q + kt.len(), d, v);
        assert forall|j: int| 0 <= j < acc.len() implies bytes_lt(#[trigger] acc[j].0, k) by {
            assert((acc + rest)[j] == acc[j]);
            assert((acc + rest)[acc.len() as int] == rest[0]);
        }
        lemma_lower_bound_end(acc, k, 0);
        assert(acc.insert(acc.len() as int, (k, v)) =~= acc.push((k, v)));
        assert forall|i: int| 0 <= i < tail.len() implies wf_at(#[trigger] tail[i].1, (MAX_DEPTH - d) as nat) by {
            assert(tail[i] == rest[i + 1]);
        }
        assert(acc.push((k, v)) + tail =~= acc + rest);
        lemma_rt_dict(s, q + kt.len() + ev.len(), d, acc.push((k, v)), tail);
    }
}

/// Decoding the canonical encoding of a well-formed value gives that value back.
pub proof fn lemma_round_trip(v: Bval)
    requires
        well_formed(v),
    ensures
        decode_spec(encode_spec(v)) == Ok::<Bval, DecodeError>(v),
{
    let e = encode_spec(v);
    assert(e.subrange(0, e.len() as int) =~= e);
    lemma_rt_value(e, 0, 0, v);
}


proof fn lemma_cmp_antisym(a: Seq<u8>, b: Seq<u8>)
    ensures
        bytes_cmp(a, b) == -bytes_cmp(b, a),
    decreases a.len(),
{
    if a.len() > 0 && b.len() > 0 && a[0] == b[0] {
        lemma_cmp_antisym(a.drop_first(), b.drop_first());
    }
}

proof fn lemma_lt_trans(a: Seq<u8>, b: Seq<u8>, c: Seq<u8>)
    requires
        bytes_lt(a, b),
        bytes_lt(b, c),
    ensures
        bytes_lt(a, c),
    decreases a.len(),
{
    if a.len() > 0 && b.len() > 0 && c.len() > 0 && a[0] == b[0] && b[0] == c[0] {
        lemma_lt_trans(a.drop_first(), b.drop_first(), c.drop_first());
    }
}

proof fn lemma_lower_bound(es: Seq<(Seq<u8>, Bval)>, k: Seq<u8>, i: int)
    requires
        0 <= i <= es.len(),
    ensures
        i <= lower_bound(es, k, i) <= es.len(),
        forall|j: int| i <= j < lower_bound(es, k, i) ==> bytes_lt(#[trigger] es[j].0, k),
        lower_bound(es, k, i) < es.len() ==> !bytes_lt(es[lower_bound(es, k, i)].0, k),
    decreases es.len() - i,
{
    if i < es.len() && bytes_lt(es[i].0, k) {
        lemma_lower_bound(es, k, i + 1);
    }
}

proof fn lemma_insert_sorted(es: Seq<(Seq<u8>, Bval)>, k: Seq<u8>, v: Bval)
    requires
        keys_sorted(es),
        dict_insert(es, k, v) is Some,
    ensures
        keys_sorted(dict_insert(es, k, v)->Some_0),
{
    let i = lower_bound(es, k, 0);
    lemma_lower_bound(es, k, 0);
    let n = es.insert(i, (k, v));
    if i < es.len() {
        lemma_cmp_zero(es[i].0, k);
        lemma_cmp_antisym(es[i].0, k);
    }
    assert forall|a: int, b: int| 0 <= a < b < n.len() implies bytes_lt(#[trigger] n[a].0, #[trigger] n[b].0) by {
        if b < i {
            assert(n[a] == es[a] && n[b] == es[b]);
        } else if b == i {
            assert(n[a] == es[a]);
        } else if a == i {
            assert(n[b] == es[b - 1]);
            if b - 1 > i {
                lemma_lt_trans(k, es[i].0, es[b - 1].0);
            }
        } else if a < i {
            assert(n[a] == es[a] && n[b] == es[b - 1]);
        } else {
            assert(n[a] == es[a - 1] && n[b] == es[b - 1]);
        }
    }
}

proof fn lemma_parse_wf(s: Seq<u8>, p: int, d: nat)
    requires
        d <= MAX_DEPTH,
    ensures
        parse_value(s, p, d) matches Ok((v, _)) ==> wf_at(v, (MAX_DEPTH - d) as nat),
    decreases s.len() - p, 0nat,
{
    if 0 <= p < s.len() && s[p] != 105 && (s[p] == 108 || s[p] == 100) && d < MAX_DEPTH {
        if s[p] == 108 {
            lemma_list_wf(s, p + 1, d + 1, Seq::empty());
        } else {
            lemma_dict_wf(s, p + 1, d + 1, Seq::empty());
        }
    }
}

proof fn lemma_list_wf(s: Seq<u8>, p: int, d: nat, acc: Seq<Bval>)
    requires
        1 <= d <= MAX_DEPTH,
        forall|i: int| 0 <= i < acc.len() ==> wf_at(#[trigger] acc[i], (MAX_DEPTH - d) as nat),
    ensures
        list_items(s, p, d, acc) matches Ok((v, _)) ==> (v is List && forall|i: int|
            0 <= i < v->List_0.len() ==> wf_at(#[trigger] v->List_0[i], (MAX_DEPTH - d) as nat)),
    decreases s.len() - p, 1nat,
{
    if 0 <= p < s.len() && s[p] != 101 {
        lemma_parse_wf(s, p, d);
        if let Ok((v, q)) = parse_value(s, p, d) {
            if p < q <= s.len() {
                let acc2 = acc.push(v);
                assert forall|i: int| 0 <= i < acc2.len() implies wf_at(#[trigger] acc2[i], (MAX_DEPTH - d) as nat) by {
                    if i < acc.len() {
                        assert(acc2[i] == acc[i]);
                    }
                }
                lemma_list_wf(s, q, d, acc2);
            }
        }
    }
}

proof fn lemma_dict_wf(s: Seq<u8>, p: int, d: nat, acc: Seq<(Seq<u8>, Bval)>)
    requires
        1 <= d <= MAX_DEPTH,
        keys_sorted(acc),
        forall|i: int| 0 <= i < acc.len() ==> wf_at(#[trigger] acc[i].1, (MAX_DEPTH - d) as nat),
    ensures
        dict_items(s, p, d, acc) matches Ok((v, _)) ==> (v is Dict && keys_sorted(v->Dict_0) && forall|i: int|
            0 <= i < v->Dict_0.len() ==> wf_at(#[trigger] v->Dict_0[i].1, (MAX_DEPTH - d) as nat)),
    decreases s.len() - p, 1nat,
{
    if 0 <= p < s.len() && s[p] != 101 {
        if let Ok((k, q)) = parse_bytes(s, p) {
            if p < q < s.len() {
                lemma_parse_wf(s, q, d);
                if let Ok((v, r)) = parse_value(s, q, d) {
                    if q < r <= s.len() && dict_insert(acc, k, v) is Some {
                        lemma_insert_sorted(acc, k, v);
                        let i = lower_bound(acc, k, 0);
                        lemma_lower_bound(acc, k, 0);
                        let acc2 = acc.insert(i, (k, v));
                        assert forall|j: int| 0 <= j < acc2.len() implies wf_at(#[trigger] acc2[j].1, (MAX_DEPTH - d) as nat) by {
                            if j < i {
                                assert(acc2[j] == acc[j]);
                            } else if j > i {
                                assert(acc2[j] == acc[j - 1]);
                            }
                        }
                        lemma_dict_wf(s, r, d, acc2);
                    }
                }
            }
        }
    }
}

/// Whatever the decoder accepts is a well-formed value.
pub proof fn lemma_decoded_well_formed(s: Seq<u8>)
    ensures
        decode_spec(s) matches Ok(v) ==> well_formed(v),
{
    lemma_parse_wf(s, 0, 0);
}

/// A value that the decoder gave, once encoded, decodes to itself.
pub proof fn lemma_decoded_round_trip(s: Seq<u8>)
    requires
        decode_spec(s) is Ok,
    ensures
        decode_spec(encode_spec(decode_spec(s)->Ok_0)) == decode_spec(s),
{
    lemma_decoded_well_formed(s);
    lemma_round_trip(decode_spec(s)->Ok_0);
}

} // verus!
