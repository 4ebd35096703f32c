use vstd::prelude::*;
use vstd::slice::slice_subrange;
use crate::error::CryptoError;

verus! {

/// Size of the frame that holds the header at the start of every container.
pub const HEADER_SIZE: usize = 512;

/// A byte that a header field may hold: printable ASCII other than `"` and `\`.
pub open spec fn is_plain(b: u8) -> bool {
    0x20 <= b <= 0x7e && b != 34 && b != 92
}

pub open spec fn is_plain_text(s: Seq<u8>) -> bool {
    forall|i: int| 0 <= i < s.len() ==> #[trigger] is_plain(s[i])
}

/// `{"binlock":"`
pub open spec fn record_open() -> Seq<u8> {
    seq![123u8, 34, 98, 105, 110, 108, 111, 99, 107, 34, 58, 34]
}

/// `","salt":"`
pub open spec fn salt_sep() -> Seq<u8> {
    seq![34u8, 44, 34, 115, 97, 108, 116, 34, 58, 34]
}

/// `","iv":"`
pub open spec fn iv_sep() -> Seq<u8> {
    seq![34u8, 44, 34, 105, 118, 34, 58, 34]
}

/// `","aad":"`
pub open spec fn aad_sep() -> Seq<u8> {
    seq![34u8, 44, 34, 97, 97, 100, 34, 58, 34]
}

/// `"}`
pub open spec fn record_close() -> Seq<u8> {
    seq![34u8, 125]
}

/// The compact JSON record of the four header fields, in this order.
pub open spec fn record_of(version: Seq<u8>, salt: Seq<u8>, iv: Seq<u8>, aad: Seq<u8>) -> Seq<u8> {
    record_open() + version + salt_sep() + salt + iv_sep() + iv + aad_sep() + aad + record_close()
}

/// A record followed by zero bytes up to the frame size.
pub open spec fn frame_of(record: Seq<u8>) -> Seq<u8> {
    record + Seq::new((HEADER_SIZE - record.len()) as nat, |i: int| 0u8)
}

/// The bytes of `s` other than zero, in order.
pub open spec fn without_zeros(s: Seq<u8>) -> Seq<u8>
    decreases s.len(),
{
    if s.len() == 0 {
        s
    } else if s.last() == 0 {
        without_zeros(s.drop_last())
    } else {
        without_zeros(s.drop_last()).push(s.last())
    }
}

/// The public parameters of a container, each field held as its text.
pub struct Header {
    pub binlock: Vec<u8>,
    pub salt: Vec<u8>,
    pub iv: Vec<u8>,
    pub aad: Vec<u8>,
}

impl Header {
    pub open spec fn wf(&self) -> bool {
        &&& is_plain_text(self.binlock@)
        &&& is_plain_text(self.salt@)
        &&& is_plain_text(self.iv@)
        &&& is_plain_text(self.aad@)
    }

    pub open spec fn record(&self) -> Seq<u8> {
        record_of(self.binlock@, self.salt@, self.iv@, self.aad@)
    }
}

/// Appends `src` to `out`.
pub fn append_bytes(out: &mut Vec<u8>, src: &[u8])
    ensures
        final(out)@ == old(out)@ + src@,
{
    let mut i: usize = 0;
    while i < src.len()
        invariant
            i <= src@.len(),
            out@ == old(out)@ + src@.subrange(0, i as int),
        decreases src@.len() - i,
    {
        out.push(src[i]);
        i = i + 1;
        assert(src@.subrange(0, i as int) == src@.subrange(0, i - 1).push(src@[i - 1]));
    }
    assert(src@.subrange(0, i as int) == src@);
}

fn open_bytes() -> (r: Vec<u8>)
    ensures
        r@ == record_open(),
{
    let r = vec![123u8, 34, 98, 105, 110, 108, 111, 99, 107, 34, 58, 34];
    assert(r@ == record_open());
    r
}

fn salt_sep_bytes() -> (r: Vec<u8>)
    ensures
        r@ == salt_sep(),
{
    let r = vec![34u8, 44, 34, 115, 97, 108, 116, 34, 58, 34];
    assert(r@ == salt_sep());
    r
}

fn iv_sep_bytes() -> (r: Vec<u8>)
    ensures
        r@ == iv_sep(),
{
    let r = vec![34u8, 44, 34, 105, 118, 34, 58, 34];
    assert(r@ == iv_sep());
    r
}

fn aad_sep_bytes() -> (r: Vec<u8>)
    ensures
        r@ == aad_sep(),
{
    let r = vec![34u8, 44, 34, 97, 97, 100, 34, 58, 34];
    assert(r@ == aad_sep());
    r
}

fn close_bytes() -> (r: Vec<u8>)
    ensures
        r@ == record_close(),
{
    let r = vec![34u8, 125];
    assert(r@ == record_close());
    r
}


/// Whether `lit` stands in `s` at `pos`.
fn matches_at(s: &[u8], pos: usize, lit: &[u8]) -> (r: bool)
    requires
        pos <= s@.len(),
    ensures
        r == (pos + lit@.len() <= s@.len() && s@.subrange(pos as int, pos + lit@.len()) == lit@),
{
    if lit.len() > s.len() - pos {
        return false;
    }
    let mut i: usize = 0;
    while i < lit.len()
        invariant
            pos + lit@.len() <= s@.len() <= usize::MAX,
            i <= lit@.len(),
            forall|k: int| 0 <= k < i ==> s@[pos + k] == lit@[k],
        decreases lit@.len() - i,
    {
        if s[pos + i] != lit[i] {
            assert(s@.subrange(pos as int, pos + lit@.len())[i as int] != lit@[i as int]);
            return false;
        }
        i = i + 1;
    }
    assert(s@.subrange(pos as int, pos + lit@.len()) =~= lit@);
    true
}

/// The end of the run of plain bytes that starts at `pos`.
fn plain_end(s: &[u8], pos: usize) -> (end: usize)
    requires
        pos <= s@.len(),
    ensures
        pos <= end <= s@.len(),
        forall|k: int| pos <= k < end ==> #[trigger] is_plain(s@[k]),
        end < s@.len() ==> !is_plain(s@[end as int]),
{
    let mut i: usize = pos;
    while i < s.len()
        invariant
            pos <= i <= s@.len(),
            forall|k: int| pos <= k < i ==> #[trigger] is_plain(s@[k]),
        decreases s@.len() - i,
    {
        let b = s[i];
        if !(0x20 <= b && b <= 0x7e && b != 34 && b != 92) {
            return i;
        }
        i = i + 1;
    }
    i
}

/// Copies `s[start..end]` into a new vector.
fn copy_range(s: &[u8], start: usize, end: usize) -> (r: Vec<u8>)
    requires
        start <= end <= s@.len(),
    ensures
        r@ == s@.subrange(start as int, end as int),
{
    let mut r: Vec<u8> = Vec::new();
    append_bytes(&mut r, slice_subrange(s, start, end));
    r
}

/// The bytes of `s` other than zero, in order.
pub fn strip_zeros(s: &[u8]) -> (r: Vec<u8>)
    ensures
        r@ == without_zeros(s@),
{
    let mut r: Vec<u8> = Vec::new();
    let mut i: usize = 0;
    while i < s.len()
        invariant
            i <= s@.len(),
            r@ == without_zeros(s@.subrange(0, i as int)),
        decreases s@.len() - i,
    {
        assert(s@.subrange(0, i + 1).drop_last() == s@.subrange(0, i as int));
        if s[i] != 0 {
            r.push(s[i]);
        }
        i = i + 1;
    }
    assert(s@.subrange(0, i as int) == s@);
    r
}

impl Header {
    /// The compact record of the four fields.
    pub fn to_record(&self) -> (r: Vec<u8>)
        ensures
            r@ == self.record(),
    {
        let mut r = open_bytes();
        append_bytes(&mut r, self.binlock.as_slice());
        append_bytes(&mut r, salt_sep_bytes().as_slice());
        append_bytes(&mut r, self.salt.as_slice());
        append_bytes(&mut r, iv_sep_bytes().as_slice());
        append_bytes(&mut r, self.iv.as_slice());
        append_bytes(&mut r, aad_sep_bytes().as_slice());
        append_bytes(&mut r, self.aad.as_slice());
        append_bytes(&mut r, close_bytes().as_slice());
        r
    }

    /// The header frame: the record, padded with zero bytes to the frame size.
    pub fn encode(&self) -> (r: Result<Vec<u8>, CryptoError>)
        ensures
            r is Ok <==> self.record().len() <= HEADER_SIZE,
            r matches Ok(v) ==> v@ == frame_of(self.record()) && v@.len() == HEADER_SIZE,
            r matches Err(e) ==> e == CryptoError::HeaderTooLarge,
    {
        let mut frame = self.to_record();
        if frame.len() > HEADER_SIZE {
            return Err(CryptoError::HeaderTooLarge);
        }
        let ghost record = frame@;
        while frame.len() < HEADER_SIZE
            invariant
                record.len() <= frame@.len() <= HEADER_SIZE,
                frame@ == record + Seq::new((frame@.len() - record.len()) as nat, |i: int| 0u8),
            decreases HEADER_SIZE - frame@.len(),
        {
            frame.push(0);
            assert(frame@ =~= record + Seq::new((frame@.len() - record.len()) as nat, |i: int| 0u8));
        }
        assert(frame@ =~= frame_of(record));
        Ok(frame)
    }
}

/// Whether a parse result holds exactly the four given fields.
pub open spec fn holds_fields(r: Option<Header>, version: Seq<u8>, salt: Seq<u8>, iv: Seq<u8>, aad: Seq<u8>) -> bool {
    r matches Some(h) && h.binlock@ == version && h.salt@ == salt && h.iv@ == iv && h.aad@ == aad
}

/// The offsets at which the parts of a record start.
proof fn lemma_record_layout(version: Seq<u8>, salt: Seq<u8>, iv: Seq<u8>, aad: Seq<u8>)
    ensures
        ({
            let s = record_of(version, salt, iv, aad);
            let e1: int = 12 + version.len() as int;
            let e2: int = e1 + 10 + salt.len();
            let e3: int = e2 + 8 + iv.len();
            let e4: int = e3 + 9 + aad.len();
            &&& s.len() == e4 + 2
            &&& s.subrange(0, 12) == record_open()
            &&& s.subrange(12, e1) == version
            &&& s.subrange(e1, e1 + 10) == salt_sep()
            &&& s.subrange(e1 + 10, e2) == salt
            &&& s.subrange(e2, e2 + 8) == iv_sep()
            &&& s.subrange(e2 + 8, e3) == iv
            &&& s.subrange(e3, e3 + 9) == aad_sep()
            &&& s.subrange(e3 + 9, e4) == aad
            &&& s.subrange(e4, e4 + 2) == record_close()
        }),
{
    let s = record_of(version, salt, iv, aad);
    let e1: int = 12 + version.len() as int;
    let e2: int = e1 + 10 + salt.len();
    let e3: int = e2 + 8 + iv.len();
    let e4: int = e3 + 9 + aad.len();
    assert(s.subrange(0, 12) =~= record_open());
    assert(s.subrange(12, e1) =~= version);
    assert(s.subrange(e1, e1 + 10) =~= salt_sep());
    assert(s.subrange(e1 + 10, e2) =~= salt);
    assert(s.subrange(e2, e2 + 8) =~= iv_sep());
    assert(s.subrange(e2 + 8, e3) =~= iv);
    assert(s.subrange(e3, e3 + 9) =~= aad_sep());
    assert(s.subrange(e3 + 9, e4) =~= aad);
    assert(s.subrange(e4, e4 + 2) =~= record_close());
}

/// A run of plain bytes that a quote follows ends at the quote.
proof fn lemma_field_end(s: Seq<u8>, pos: int, f: Seq<u8>, end: int)
    requires
        0 <= pos <= end <= s.len(),
        pos + f.len() < s.len(),
        s.subrange(pos, pos + f.len()) == f,
        is_plain_text(f),
        s[pos + f.len()] == 34,
        forall|k: int| pos <= k < end ==> #[trigger] is_plain(s[k]),
        end < s.len() ==> !is_plain(s[end]),
    ensures
        end == pos + f.len(),
{
    if end < pos + f.len() {
        assert(s.subrange(pos, pos + f.len())[end - pos] == s[end]);
        assert(is_plain(f[end - pos]));
    }
    if end > pos + f.len() {
        assert(is_plain(s[pos + f.len()]));
    }
}

/// The end of the plain field that starts at `pos`, where `lit` follows it.
fn field_end(s: &[u8], pos: usize, lit: &[u8], Ghost(f): Ghost<Seq<u8>>) -> (r: Option<usize>)
    requires
        pos <= s@.len(),
        lit@.len() > 0,
        lit@[0] == 34,
    ensures
        r matches Some(e) ==> pos <= e && e + lit@.len() <= s@.len()
            && is_plain_text(s@.subrange(pos as int, e as int))
            && s@.subrange(e as int, e + lit@.len()) == lit@,
        is_plain_text(f) && pos + f.len() + lit@.len() <= s@.len()
            && s@.subrange(pos as int, pos + f.len()) == f
            && s@.subrange(pos + f.len(), pos + f.len() + lit@.len()) == lit@
            ==> r == Some((pos + f.len()) as usize),
{
    let e = plain_end(s, pos);
    proof {
        if is_plain_text(f) && pos + f.len() + lit@.len() <= s@.len()
            && s@.subrange(pos as int, pos + f.len()) == f
            && s@.subrange(pos + f.len(), pos + f.len() + lit@.len()) == lit@ {
            assert(s@.subrange(pos + f.len(), pos + f.len() + lit@.len())[0] == lit@[0]);
            lemma_field_end(s@, pos as int, f, e as int);
        }
        assert forall|k: int| 0 <= k < e - pos implies #[trigger] is_plain(s@.subrange(pos as int, e as int)[k]) by {
            assert(is_plain(s@[pos + k]));
        }
    }
    if matches_at(s, e, lit) {
        Some(e)
    } else {
        None
    }
}

/// Two plain fields that each end at a quote in the same place are equal.
proof fn lemma_same_field(s: Seq<u8>, pos: int, f: Seq<u8>, g: Seq<u8>)
    requires
        0 <= pos,
        pos + f.len() < s.len(),
        pos + g.len() < s.len(),
        s.subrange(pos, pos + f.len()) == f,
        s.subrange(pos, pos + g.len()) == g,
        is_plain_text(f),
        is_plain_text(g),
        s[pos + f.len()] == 34,
        s[pos + g.len()] == 34,
    ensures
        f == g,
{
    if f.len() < g.len() {
        assert(s.subrange(pos, pos + g.len())[f.len() as int] == s[pos + f.len()]);
        assert(is_plain(g[f.len() as int]));
    } else if g.len() < f.len() {
        assert(s.subrange(pos, pos + f.len())[g.len() as int] == s[pos + g.len()]);
        assert(is_plain(f[g.len() as int]));
    } else {
        assert(f =~= g);
    }
}

/// A record of plain fields determines its fields.
pub proof fn lemma_record_injective(
    a: (Seq<u8>, Seq<u8>, Seq<u8>, Seq<u8>),
    b: (Seq<u8>, Seq<u8>, Seq<u8>, Seq<u8>),
)
    requires
        is_plain_text(a.0) && is_plain_text(a.1) && is_plain_text(a.2) && is_plain_text(a.3),
        is_plain_text(b.0) && is_plain_text(b.1) && is_plain_text(b.2) && is_plain_text(b.3),
        record_of(a.0, a.1, a.2, a.3) == record_of(b.0, b.1, b.2, b.3),
    ensures
        a == b,
{
    let s = record_of(a.0, a.1, a.2, a.3);
    lemma_record_layout(a.0, a.1, a.2, a.3);
    lemma_record_layout(b.0, b.1, b.2, b.3);
    let version_at: int = 12;
    assert(s.subrange(version_at + a.0.len(), version_at + a.0.len() + 10)[0] == s[version_at + a.0.len()]);
    assert(s.subrange(version_at + b.0.len(), version_at + b.0.len() + 10)[0] == s[version_at + b.0.len()]);
    lemma_same_field(s, version_at, a.0, b.0);
    let salt_at: int = version_at + a.0.len() + 10;
    assert(s.subrange(salt_at + a.1.len(), salt_at + a.1.len() + 8)[0] == s[salt_at + a.1.len()]);
    assert(s.subrange(salt_at + b.1.len(), salt_at + b.1.len() + 8)[0] == s[salt_at + b.1.len()]);
    lemma_same_field(s, salt_at, a.1, b.1);
    let iv_at: int = salt_at + a.1.len() + 8;
    assert(s.subrange(iv_at + a.2.len(), iv_at + a.2.len() + 9)[0] == s[iv_at + a.2.len()]);
    assert(s.subrange(iv_at + b.2.len(), iv_at + b.2.len() + 9)[0] == s[iv_at + b.2.len()]);
    lemma_same_field(s, iv_at, a.2, b.2);
    let aad_at: int = iv_at + a.2.len() + 9;
    assert(s.subrange(aad_at + a.3.len(), aad_at + a.3.len() + 2)[0] == s[aad_at + a.3.len()]);
    assert(s.subrange(aad_at + b.3.len(), aad_at + b.3.len() + 2)[0] == s[aad_at + b.3.len()]);
    lemma_same_field(s, aad_at, a.3, b.3);
}

impl Header {
    /// Reads a record back into its four fields: `None` unless the bytes are
    /// exactly the record of four plain fields.
    #[verifier::rlimit(100)]
    #[verifier::spinoff_prover]
    pub fn parse(record: &[u8]) -> (r: Option<Header>)
        ensures
            r matches Some(h) ==> h.wf() && h.record() == record@,
            forall|version: Seq<u8>, salt: Seq<u8>, iv: Seq<u8>, aad: Seq<u8>|
                is_plain_text(version) && is_plain_text(salt) && is_plain_text(iv) && is_plain_text(aad)
                    && #[trigger] record_of(version, salt, iv, aad) == record@
                    ==> holds_fields(r, version, salt, iv, aad),
    {
        let s = record;
        let ghost fields = choose|f: (Seq<u8>, Seq<u8>, Seq<u8>, Seq<u8>)|
            is_plain_text(f.0) && is_plain_text(f.1) && is_plain_text(f.2) && is_plain_text(f.3)
                && #[trigger] record_of(f.0, f.1, f.2, f.3) == record@;
        let ghost complete = is_plain_text(fields.0) && is_plain_text(fields.1) && is_plain_text(fields.2)
            && is_plain_text(fields.3) && record_of(fields.0, fields.1, fields.2, fields.3) == record@;
        proof {
            lemma_record_layout(fields.0, fields.1, fields.2, fields.3);
            assert forall|version: Seq<u8>, salt: Seq<u8>, iv: Seq<u8>, aad: Seq<u8>|
                is_plain_text(version) && is_plain_text(salt) && is_plain_text(iv) && is_plain_text(aad)
                    && #[trigger] record_of(version, salt, iv, aad) == record@
                implies complete by {
                let q = (version, salt, iv, aad);
                assert(is_plain_text(q.0) && is_plain_text(q.1) && is_plain_text(q.2) && is_plain_text(q.3)
                    && record_of(q.0, q.1, q.2, q.3) == record@);
            }
        }
        if s.len() < 12 || !matches_at(s, 0, open_bytes().as_slice()) {
            return None;
        }
        let e1 = match field_end(s, 12, salt_sep_bytes().as_slice(), Ghost(fields.0)) {
            Some(e) => e,
            None => return None,
        };
        let e2 = match field_end(s, e1 + 10, iv_sep_bytes().as_slice(), Ghost(fields.1)) {
            Some(e) => e,
            None => return None,
        };
        let e3 = match field_end(s, e2 + 8, aad_sep_bytes().as_slice(), Ghost(fields.2)) {
            Some(e) => e,
            None => return None,
        };
        let e4 = match field_end(s, e3 + 9, close_bytes().as_slice(), Ghost(fields.3)) {
            Some(e) => e,
            None => return None,
        };
        if e4 + 2 != s.len() {
            return None;
        }
        let h = Header {
            binlock: copy_range(s, 12, e1),
            salt: copy_range(s, e1 + 10, e2),
            iv: copy_range(s, e2 + 8, e3),
            aad: copy_range(s, e3 + 9, e4),
        };
        proof {
            lemma_record_layout(h.binlock@, h.salt@, h.iv@, h.aad@);
            assert(h.record() =~= s@);
            assert forall|version: Seq<u8>, salt: Seq<u8>, iv: Seq<u8>, aad: Seq<u8>|
                is_plain_text(version) && is_plain_text(salt) && is_plain_text(iv) && is_plain_text(aad)
                    && #[trigger] record_of(version, salt, iv, aad) == record@
                implies holds_fields(Some(h), version, salt, iv, aad) by {
                lemma_record_injective((version, salt, iv, aad), (h.binlock@, h.salt@, h.iv@, h.aad@));
            }
        }
        Some(h)
    }
}

/// Zero padding adds nothing once the zero bytes are taken out.
proof fn lemma_without_trailing_zeros(a: Seq<u8>, n: nat)
    ensures
        without_zeros(a + Seq::new(n, |i: int| 0u8)) == without_zeros(a),
    decreases n,
{
    let z = Seq::new(n, |i: int| 0u8);
    if n == 0 {
        assert(a + z =~= a);
    } else {
        let shorter = Seq::new((n - 1) as nat, |i: int| 0u8);
        assert((a + z).drop_last() =~= a + shorter);
        lemma_without_trailing_zeros(a, (n - 1) as nat);
    }
}

/// Bytes without a zero are kept as they are.
proof fn lemma_without_zeros_keeps(a: Seq<u8>)
    requires
        forall|i: int| 0 <= i < a.len() ==> a[i] != 0,
    ensures
        without_zeros(a) == a,
    decreases a.len(),
{
    if a.len() > 0 {
        lemma_without_zeros_keeps(a.drop_last());
        assert(a.drop_last().push(a.last()) =~= a);
    }
}

/// Taking the zero bytes out of a frame gives back its record, when the
/// record has no zero byte and fits the frame.
pub proof fn lemma_frame_round_trip(record: Seq<u8>)
    requires
        record.len() <= HEADER_SIZE,
        forall|i: int| 0 <= i < record.len() ==> record[i] != 0,
    ensures
        frame_of(record).len() == HEADER_SIZE,
        without_zeros(frame_of(record)) == record,
{
    lemma_without_trailing_zeros(record, (HEADER_SIZE - record.len()) as nat);
    lemma_without_zeros_keeps(record);
}

/// A record of plain fields holds no zero byte.
pub proof fn lemma_record_has_no_zero(version: Seq<u8>, salt: Seq<u8>, iv: Seq<u8>, aad: Seq<u8>)
    requires
        is_plain_text(version) && is_plain_text(salt) && is_plain_text(iv) && is_plain_text(aad),
    ensures
        forall|i: int| 0 <= i < record_of(version, salt, iv, aad).len() ==> record_of(version, salt, iv, aad)[i] != 0,
{
    let s = record_of(version, salt, iv, aad);
    lemma_record_layout(version, salt, iv, aad);
    let e1: int = 12 + version.len() as int;
    let e2: int = e1 + 10 + salt.len();
    let e3: int = e2 + 8 + iv.len();
    let e4: int = e3 + 9 + aad.len();
    assert forall|i: int| 0 <= i < s.len() implies s[i] != 0 by {
        if i < 12 {
            assert(s.subrange(0, 12)[i] == s[i]);
        } else if i < e1 {
            assert(s.subrange(12, e1)[i - 12] == s[i]);
            assert(is_plain(version[i - 12]));
        } else if i < e1 + 10 {
            assert(s.subrange(e1, e1 + 10)[i - e1] == s[i]);
        } else if i < e2 {
            assert(s.subrange(e1 + 10, e2)[i - e1 - 10] == s[i]);
            assert(is_plain(salt[i - e1 - 10]));
        } else if i < e2 + 8 {
            assert(s.subrange(e2, e2 + 8)[i - e2] == s[i]);
        } else if i < e3 {
            assert(s.subrange(e2 + 8, e3)[i - e2 - 8] == s[i]);
            assert(is_plain(iv[i - e2 - 8]));
        } else if i < e3 + 9 {
            assert(s.subrange(e3, e3 + 9)[i - e3] == s[i]);
        } else if i < e4 {
            assert(s.subrange(e3 + 9, e4)[i - e3 - 9] == s[i]);
            assert(is_plain(aad[i - e3 - 9]));
        } else {
            assert(s.subrange(e4, e4 + 2)[i - e4] == s[i]);
        }
    }
}

} // verus!
