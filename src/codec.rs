//! Bounded binary records for lots and their updates.
//!
//! Integers are little-endian; a byte string is its length as a `u32`
//! followed by the bytes; text is its UTF-8 bytes written as a byte string.
use vstd::bytes::*;
use vstd::prelude::*;
use vstd::utf8::*;

verus! {

/// The largest number of bytes one stored record may take.
pub const MAX_RECORD_SIZE: usize = 1024;

/// Why a record could not be encoded or decoded.
#[derive(Debug, PartialEq, Eq, Structural)]
pub enum CodecError {
    /// The value does not fit in one record.
    TooLarge,
    /// The bytes are not the encoding of any value.
    Corrupt,
}

/// One immutable entry of a lot's status trail.
#[derive(Clone, Debug, PartialEq, Eq)]
pub struct Update {
    pub status: String,
    pub details: String,
    pub timestamp: u64,
    /// The raw bytes of the identity that made the update.
    pub updated_by: Vec<u8>,
}

/// A tracked batch of coffee with its provenance and status trail.
#[derive(Clone, Debug, PartialEq, Eq)]
pub struct CoffeeLot {
    pub id: u64,
    pub farmer: String,
    pub harvest_date: String,
    pub location: String,
    pub status: String,
    pub updates: Vec<Update>,
    pub timestamp: u64,
}

pub struct UpdateV {
    pub status: Seq<char>,
    pub details: Seq<char>,
    pub timestamp: u64,
    pub updated_by: Seq<u8>,
}

pub struct LotV {
    pub id: u64,
    pub farmer: Seq<char>,
    pub harvest_date: Seq<char>,
    pub location: Seq<char>,
    pub status: Seq<char>,
    pub updates: Seq<UpdateV>,
    pub timestamp: u64,
}

impl View for Update {
    type V = UpdateV;

    open spec fn view(&self) -> UpdateV {
        UpdateV {
            status: self.status@,
            details: self.details@,
            timestamp: self.timestamp,
            updated_by: self.updated_by@,
        }
    }
}

pub open spec fn updates_view(v: Seq<Update>) -> Seq<UpdateV> {
    v.map_values(|u: Update| u@)
}

impl View for CoffeeLot {
    type V = LotV;

    open spec fn view(&self) -> LotV {
        LotV {
            id: self.id,
            farmer: self.farmer@,
            harvest_date: self.harvest_date@,
            location: self.location@,
            status: self.status@,
            updates: updates_view(self.updates@),
            timestamp: self.timestamp,
        }
    }
}

// ---------------------------------------------------------------------------
// The encoding, as a function from values to bytes.

pub open spec fn enc_bytes(b: Seq<u8>) -> Seq<u8> {
    spec_u32_to_le_bytes(b.len() as u32) + b
}

pub open spec fn enc_text(s: Seq<char>) -> Seq<u8> {
    enc_bytes(encode_utf8(s))
}

pub open spec fn enc_update(u: UpdateV) -> Seq<u8> {
    enc_text(u.status) + enc_text(u.details) + spec_u64_to_le_bytes(u.timestamp) + enc_bytes(
        u.updated_by,
    )
}

pub open spec fn enc_updates(s: Seq<UpdateV>) -> Seq<u8>
    decreases s.len(),
{
    if s.len() == 0 {
        Seq::empty()
    } else {
        enc_update(s[0]) + enc_updates(s.skip(1))
    }
}

pub open spec fn enc_lot(l: LotV) -> Seq<u8> {
    spec_u64_to_le_bytes(l.id) + enc_text(l.farmer) + enc_text(l.harvest_date) + enc_text(
        l.location,
    ) + enc_text(l.status) + spec_u32_to_le_bytes(l.updates.len() as u32) + enc_updates(
        l.updates,
    ) + spec_u64_to_le_bytes(l.timestamp)
}

/// Every length that the encoding writes as a `u32` fits in one.
pub open spec fn bytes_wf(b: Seq<u8>) -> bool {
    b.len() <= u32::MAX
}

pub open spec fn text_wf(s: Seq<char>) -> bool {
    bytes_wf(encode_utf8(s))
}

pub open spec fn update_wf(u: UpdateV) -> bool {
    text_wf(u.status) && text_wf(u.details) && bytes_wf(u.updated_by)
}

pub open spec fn lot_wf(l: LotV) -> bool {
    &&& text_wf(l.farmer)
    &&& text_wf(l.harvest_date)
    &&& text_wf(l.location)
    &&& text_wf(l.status)
    &&& l.updates.len() <= u32::MAX
    &&& forall|i: int| 0 <= i < l.updates.len() ==> update_wf(#[trigger] l.updates[i])
}

/// An update that can be stored as one record.
pub open spec fn update_fits(u: UpdateV) -> bool {
    update_wf(u) && enc_update(u).len() <= MAX_RECORD_SIZE
}

/// A lot that can be stored as one record.
pub open spec fn lot_fits(l: LotV) -> bool {
    lot_wf(l) && enc_lot(l).len() <= MAX_RECORD_SIZE
}

// ---------------------------------------------------------------------------
// Reading the encoding back: each step takes one item off the front.

pub open spec fn take_u32(b: Seq<u8>) -> Option<(u32, Seq<u8>)> {
    if b.len() >= 4 {
        Some((spec_u32_from_le_bytes(b.take(4)), b.skip(4)))
    } else {
        None
    }
}

pub open spec fn take_u64(b: Seq<u8>) -> Option<(u64, Seq<u8>)> {
    if b.len() >= 8 {
        Some((spec_u64_from_le_bytes(b.take(8)), b.skip(8)))
    } else {
        None
    }
}

pub open spec fn take_bytes(b: Seq<u8>) -> Option<(Seq<u8>, Seq<u8>)> {
    match take_u32(b) {
        Some((n, r)) => if n <= r.len() {
            Some((r.take(n as int), r.skip(n as int)))
        } else {
            None
        },
        None => None,
    }
}

pub open spec fn take_text(b: Seq<u8>) -> Option<(Seq<char>, Seq<u8>)> {
    match take_bytes(b) {
        Some((x, r)) => if valid_utf8(x) {
            Some((decode_utf8(x), r))
        } else {
            None
        },
        None => None,
    }
}

pub open spec fn take_update(b: Seq<u8>) -> Option<(UpdateV, Seq<u8>)> {
    match take_text(b) {
        Some((status, r1)) => match take_text(r1) {
            Some((details, r2)) => match take_u64(r2) {
                Some((timestamp, r3)) => match take_bytes(r3) {
                    Some((updated_by, r4)) => Some(
                        (UpdateV { status, details, timestamp, updated_by }, r4),
                    ),
                    None => None,
                },
                None => None,
            },
            None => None,
        },
        None => None,
    }
}

pub open spec fn take_updates(b: Seq<u8>, n: nat) -> Option<(Seq<UpdateV>, Seq<u8>)>
    decreases n,
{
    if n == 0 {
        Some((Seq::empty(), b))
    } else {
        match take_update(b) {
            Some((u, r)) => prepend(seq![u], take_updates(r, (n - 1) as nat)),
            None => None,
        }
    }
}

pub open spec fn prepend(front: Seq<UpdateV>, o: Option<(Seq<UpdateV>, Seq<u8>)>) -> Option<
    (Seq<UpdateV>, Seq<u8>),
> {
    match o {
        Some((s, r)) => Some((front + s, r)),
        None => None,
    }
}

/// The lot whose record is exactly `b`, if there is one.
pub open spec fn parse_lot(b: Seq<u8>) -> Option<LotV> {
    match take_u64(b) {
        Some((id, r0)) => match take_text(r0) {
            Some((farmer, r1)) => match take_text(r1) {
                Some((harvest_date, r2)) => match take_text(r2) {
                    Some((location, r3)) => match take_text(r3) {
                        Some((status, r4)) => match take_u32(r4) {
                            Some((n, r5)) => match take_updates(r5, n as nat) {
                                Some((updates, r6)) => match take_u64(r6) {
                                    Some((timestamp, r7)) => if r7.len() == 0 {
                                        Some(
                                            LotV {
                                                id,
                                                farmer,
                                                harvest_date,
                                                location,
                                                status,
                                                updates,
                                                timestamp,
                                            },
                                        )
                                    } else {
                                        None
                                    },
                                    None => None,
                                },
                                None => None,
                            },
                            None => None,
                        },
                        None => None,
                    },
                    None => None,
                },
                None => None,
            },
            None => None,
        },
        None => None,
    }
}

/// The update whose record is exactly `b`, if there is one.
pub open spec fn parse_update(b: Seq<u8>) -> Option<UpdateV> {
    match take_update(b) {
        Some((u, r)) => if r.len() == 0 {
            Some(u)
        } else {
            None
        },
        None => None,
    }
}


// ---------------------------------------------------------------------------
// Reading back what was written.

proof fn lemma_take_u32_enc(x: u32, rest: Seq<u8>)
    ensures
        take_u32(spec_u32_to_le_bytes(x) + rest) == Some((x, rest)),
{
    lemma_auto_spec_u32_to_from_le_bytes();
    let a = spec_u32_to_le_bytes(x);
    assert((a + rest).take(4) =~= a);
    assert((a + rest).skip(4) =~= rest);
}

proof fn lemma_take_u64_enc(x: u64, rest: Seq<u8>)
    ensures
        take_u64(spec_u64_to_le_bytes(x) + rest) == Some((x, rest)),
{
    lemma_auto_spec_u64_to_from_le_bytes();
    let a = spec_u64_to_le_bytes(x);
    assert((a + rest).take(8) =~= a);
    assert((a + rest).skip(8) =~= rest);
}

proof fn lemma_take_bytes_enc(b: Seq<u8>, rest: Seq<u8>)
    requires
        bytes_wf(b),
    ensures
        take_bytes(enc_bytes(b) + rest) == Some((b, rest)),
{
    let a = spec_u32_to_le_bytes(b.len() as u32);
    assert(enc_bytes(b) + rest =~= a + (b + rest));
    lemma_take_u32_enc(b.len() as u32, b + rest);
    assert((b + rest).take(b.len() as int) =~= b);
    assert((b + rest).skip(b.len() as int) =~= rest);
}

proof fn lemma_take_text_enc(s: Seq<char>, rest: Seq<u8>)
    requires
        text_wf(s),
    ensures
        take_text(enc_text(s) + rest) == Some((s, rest)),
{
    encode_utf8_valid_utf8(s);
    encode_utf8_decode_utf8(s);
    lemma_take_bytes_enc(encode_utf8(s), rest);
}

proof fn lemma_take_update_enc(u: UpdateV, rest: Seq<u8>)
    requires
        update_wf(u),
    ensures
        take_update(enc_update(u) + rest) == Some((u, rest)),
{
    let t1 = enc_text(u.details);
    let t2 = spec_u64_to_le_bytes(u.timestamp);
    let t3 = enc_bytes(u.updated_by);
    assert(enc_update(u) + rest =~= enc_text(u.status) + (t1 + (t2 + (t3 + rest))));
    lemma_take_text_enc(u.status, t1 + (t2 + (t3 + rest)));
    lemma_take_text_enc(u.details, t2 + (t3 + rest));
    lemma_take_u64_enc(u.timestamp, t3 + rest);
    lemma_take_bytes_enc(u.updated_by, rest);
}

proof fn lemma_take_updates_enc(s: Seq<UpdateV>, rest: Seq<u8>)
    requires
        forall|i: int| 0 <= i < s.len() ==> update_wf(#[trigger] s[i]),
    ensures
        take_updates(enc_updates(s) + rest, s.len()) == Some((s, rest)),
    decreases s.len(),
{
    if s.len() > 0 {
        let tail = s.skip(1);
        assert forall|i: int| 0 <= i < tail.len() implies update_wf(#[trigger] tail[i]) by {
            assert(tail[i] == s[i + 1]);
        }
        lemma_take_updates_enc(tail, rest);
        assert(enc_updates(s) + rest =~= enc_update(s[0]) + (enc_updates(tail) + rest));
        lemma_take_update_enc(s[0], enc_updates(tail) + rest);
        assert(seq![s[0]] + tail =~= s);
    } else {
        assert(enc_updates(s) + rest =~= rest);
        assert(s =~= Seq::<UpdateV>::empty());
    }
}

/// Decoding the record of an update that fits gives the update back.
pub proof fn lemma_update_round_trip(u: UpdateV)
    requires
        update_fits(u),
    ensures
        parse_update(enc_update(u)) == Some(u),
{
    lemma_take_update_enc(u, Seq::empty());
    assert(enc_update(u) + Seq::<u8>::empty() =~= enc_update(u));
}

/// Decoding the record of a lot that fits gives the lot back.
#[verifier::rlimit(50)]
pub proof fn lemma_lot_round_trip(l: LotV)
    requires
        lot_fits(l),
    ensures
        parse_lot(enc_lot(l)) == Some(l),
{
    let e = Seq::<u8>::empty();
    let t7 = spec_u64_to_le_bytes(l.timestamp);
    let t6 = enc_updates(l.updates) + t7;
    let t5 = spec_u32_to_le_bytes(l.updates.len() as u32) + t6;
    let t4 = enc_text(l.status) + t5;
    let t3 = enc_text(l.location) + t4;
    let t2 = enc_text(l.harvest_date) + t3;
    let t1 = enc_text(l.farmer) + t2;
    assert(enc_lot(l) =~= spec_u64_to_le_bytes(l.id) + t1);
    lemma_take_u64_enc(l.id, t1);
    lemma_take_text_enc(l.farmer, t2);
    lemma_take_text_enc(l.harvest_date, t3);
    lemma_take_text_enc(l.location, t4);
    lemma_take_text_enc(l.status, t5);
    lemma_take_u32_enc(l.updates.len() as u32, t6);
    lemma_take_updates_enc(l.updates, t7);
    assert(t7 =~= t7 + e);
    lemma_take_u64_enc(l.timestamp, e);
    let b = enc_lot(l);
    assert(take_u64(b) == Some((l.id, t1)));
    assert(take_text(t1) == Some((l.farmer, t2)));
    assert(take_text(t2) == Some((l.harvest_date, t3)));
    assert(take_text(t3) == Some((l.location, t4)));
    assert(take_text(t4) == Some((l.status, t5)));
    assert(take_u32(t5) == Some((l.updates.len() as u32, t6)));
    assert((l.updates.len() as u32) as nat == l.updates.len());
    assert(take_updates(t6, l.updates.len()) == Some((l.updates, t7)));
    assert(take_u64(t7) == Some((l.timestamp, e)));
}

proof fn lemma_enc_updates_split(s: Seq<UpdateV>, k: int)
    requires
        0 <= k <= s.len(),
    ensures
        enc_updates(s) == enc_updates(s.take(k)) + enc_updates(s.skip(k)),
    decreases k,
{
    if k == 0 {
        assert(s.take(0) =~= Seq::<UpdateV>::empty());
        assert(s.skip(0) =~= s);
        assert(enc_updates(s) =~= Seq::<u8>::empty() + enc_updates(s));
    } else {
        let t = s.skip(1);
        lemma_enc_updates_split(t, k - 1);
        assert(t.take(k - 1) =~= s.take(k).skip(1));
        assert(t.skip(k - 1) =~= s.skip(k));
        assert(s.take(k)[0] == s[0]);
        assert(enc_updates(s) =~= enc_updates(s.take(k)) + enc_updates(s.skip(k)));
    }
}

proof fn lemma_enc_updates_snoc(s: Seq<UpdateV>, i: int)
    requires
        0 <= i < s.len(),
    ensures
        enc_updates(s.take(i + 1)) == enc_updates(s.take(i)) + enc_update(s[i]),
{
    let t = s.take(i + 1);
    lemma_enc_updates_split(t, i);
    assert(t.take(i) =~= s.take(i));
    let last = t.skip(i);
    assert(last.len() == 1 && last[0] == s[i]);
    assert(last.skip(1) =~= Seq::<UpdateV>::empty());
    assert(enc_updates(last) == enc_update(last[0]) + enc_updates(last.skip(1)));
    assert(enc_updates(last.skip(1)) == Seq::<u8>::empty());
    assert(enc_update(s[i]) + Seq::<u8>::empty() =~= enc_update(s[i]));
}

proof fn lemma_enc_updates_len(s: Seq<UpdateV>)
    ensures
        enc_updates(s).len() >= s.len(),
    decreases s.len(),
{
    lemma_auto_spec_u32_to_from_le_bytes();
    if s.len() > 0 {
        lemma_enc_updates_len(s.skip(1));
    }
}

// ---------------------------------------------------------------------------
// Writing records.

fn append_all(out: &mut Vec<u8>, b: &[u8])
    ensures
        final(out)@ == old(out)@ + b@,
{
    let ghost start = out@;
    let mut i: usize = 0;
    while i < b.len()
        invariant
            0 <= i <= b@.len(),
            out@ == start + b@.take(i as int),
        decreases b@.len() - i,
    {
        out.push(b[i]);
        i = i + 1;
        assert(out@ =~= start + b@.take(i as int));
    }
    assert(b@.take(b@.len() as int) =~= b@);
}

fn push_u32(out: &mut Vec<u8>, x: u32) -> (ok: bool)
    requires
        old(out)@.len() <= MAX_RECORD_SIZE,
    ensures
        ok ==> final(out)@ == old(out)@ + spec_u32_to_le_bytes(x) && final(out)@.len()
            <= MAX_RECORD_SIZE,
        !ok ==> old(out)@.len() + spec_u32_to_le_bytes(x).len() > MAX_RECORD_SIZE,
{
    proof {
        lemma_auto_spec_u32_to_from_le_bytes();
    }
    if MAX_RECORD_SIZE - out.len() < 4 {
        return false;
    }
    let v = u32_to_le_bytes(x);
    append_all(out, v.as_slice());
    true
}

fn push_u64(out: &mut Vec<u8>, x: u64) -> (ok: bool)
    requires
        old(out)@.len() <= MAX_RECORD_SIZE,
    ensures
        ok ==> final(out)@ == old(out)@ + spec_u64_to_le_bytes(x) && final(out)@.len()
            <= MAX_RECORD_SIZE,
        !ok ==> old(out)@.len() + spec_u64_to_le_bytes(x).len() > MAX_RECORD_SIZE,
{
    proof {
        lemma_auto_spec_u64_to_from_le_bytes();
    }
    if MAX_RECORD_SIZE - out.len() < 8 {
        return false;
    }
    let v = u64_to_le_bytes(x);
    append_all(out, v.as_slice());
    true
}

fn push_bytes(out: &mut Vec<u8>, b: &[u8]) -> (ok: bool)
    requires
        old(out)@.len() <= MAX_RECORD_SIZE,
    ensures
        ok ==> bytes_wf(b@) && final(out)@ == old(out)@ + enc_bytes(b@) && final(out)@.len()
            <= MAX_RECORD_SIZE,
        !ok ==> old(out)@.len() + enc_bytes(b@).len() > MAX_RECORD_SIZE,
{
    proof {
        lemma_auto_spec_u32_to_from_le_bytes();
    }
    if b.len() > MAX_RECORD_SIZE - out.len() {
        return false;
    }
    if MAX_RECORD_SIZE - out.len() - b.len() < 4 {
        return false;
    }
    let v = u32_to_le_bytes(b.len() as u32);
    append_all(out, v.as_slice());
    append_all(out, b);
    proof {
        assert(final(out)@ =~= old(out)@ + enc_bytes(b@)) by {
            assert(out@ =~= old(out)@ + enc_bytes(b@));
        }
    }
    true
}

fn push_text(out: &mut Vec<u8>, s: &String) -> (ok: bool)
    requires
        old(out)@.len() <= MAX_RECORD_SIZE,
    ensures
        ok ==> text_wf(s@) && final(out)@ == old(out)@ + enc_text(s@) && final(out)@.len()
            <= MAX_RECORD_SIZE,
        !ok ==> old(out)@.len() + enc_text(s@).len() > MAX_RECORD_SIZE,
{
    push_bytes(out, s.as_str().as_bytes())
}

fn push_update(out: &mut Vec<u8>, u: &Update) -> (ok: bool)
    requires
        old(out)@.len() <= MAX_RECORD_SIZE,
    ensures
        ok ==> update_wf(u@) && final(out)@ == old(out)@ + enc_update(u@) && final(out)@.len()
            <= MAX_RECORD_SIZE,
        !ok ==> old(out)@.len() + enc_update(u@).len() > MAX_RECORD_SIZE,
{
    if !push_text(out, &u.status) {
        return false;
    }
    if !push_text(out, &u.details) {
        return false;
    }
    if !push_u64(out, u.timestamp) {
        return false;
    }
    if !push_bytes(out, u.updated_by.as_slice()) {
        return false;
    }
    proof {
        assert(out@ =~= old(out)@ + enc_update(u@));
    }
    true
}

fn push_updates(out: &mut Vec<u8>, v: &Vec<Update>) -> (ok: bool)
    requires
        old(out)@.len() <= MAX_RECORD_SIZE,
    ensures
        ok ==> (forall|j: int|
            0 <= j < v@.len() ==> update_wf(#[trigger] updates_view(v@)[j])) && final(out)@
            == old(out)@ + enc_updates(updates_view(v@)) && final(out)@.len() <= MAX_RECORD_SIZE,
        !ok ==> old(out)@.len() + enc_updates(updates_view(v@)).len() > MAX_RECORD_SIZE,
{
    let ghost uv = updates_view(v@);
    let ghost base = out@;
    let n = v.len();
    let mut i: usize = 0;
    while i < n
        invariant
            n == uv.len(),
            uv == updates_view(v@),
            base == old(out)@,
            0 <= i <= n,
            out@ == base + enc_updates(uv.take(i as int)),
            out@.len() <= MAX_RECORD_SIZE,
            forall|j: int| 0 <= j < i ==> update_wf(#[trigger] uv[j]),
        decreases n - i,
    {
        proof {
            lemma_enc_updates_snoc(uv, i as int);
            lemma_enc_updates_split(uv, i as int + 1);
        }
        if !push_update(out, &v[i]) {
            return false;
        }
        i = i + 1;
        assert(out@ =~= base + enc_updates(uv.take(i as int)));
    }
    assert(uv.take(n as int) =~= uv);
    true
}

fn push_lot(out: &mut Vec<u8>, l: &CoffeeLot) -> (ok: bool)
    requires
        old(out)@.len() <= MAX_RECORD_SIZE,
    ensures
        ok ==> lot_wf(l@) && final(out)@ == old(out)@ + enc_lot(l@) && final(out)@.len()
            <= MAX_RECORD_SIZE,
        !ok ==> old(out)@.len() + enc_lot(l@).len() > MAX_RECORD_SIZE,
{
    if l.updates.len() > MAX_RECORD_SIZE {
        proof {
            lemma_enc_updates_len(l@.updates);
        }
        return false;
    }
    if !push_u64(out, l.id) {
        return false;
    }
    if !push_text(out, &l.farmer) {
        return false;
    }
    if !push_text(out, &l.harvest_date) {
        return false;
    }
    if !push_text(out, &l.location) {
        return false;
    }
    if !push_text(out, &l.status) {
        return false;
    }
    if !push_u32(out, l.updates.len() as u32) {
        return false;
    }
    if !push_updates(out, &l.updates) {
        return false;
    }
    if !push_u64(out, l.timestamp) {
        return false;
    }
    proof {
        assert(out@ =~= old(out)@ + enc_lot(l@));
    }
    true
}

// ---------------------------------------------------------------------------
// Reading records.

/// Relies on `String::from_utf8`: it succeeds exactly on well-formed UTF-8,
/// and the string then holds the characters that the bytes encode.
#[verifier::external_body]
fn string_from_utf8(v: Vec<u8>) -> (r: Option<String>)
    ensures
        r is Some <==> valid_utf8(v@),
        r matches Some(s) ==> s@ == decode_utf8(v@),
{
    String::from_utf8(v).ok()
}

fn copy_range(b: &Vec<u8>, from: usize, to: usize) -> (r: Vec<u8>)
    requires
        from <= to <= b@.len(),
    ensures
        r@ == b@.subrange(from as int, to as int),
{
    let mut r: Vec<u8> = Vec::new();
    let mut i: usize = from;
    while i < to
        invariant
            from <= i <= to <= b@.len(),
            r@ == b@.subrange(from as int, i as int),
        decreases to - i,
    {
        r.push(b[i]);
        i = i + 1;
        assert(r@ =~= b@.subrange(from as int, i as int));
    }
    r
}

fn read_u32(b: &Vec<u8>, pos: usize) -> (r: Option<(u32, usize)>)
    requires
        pos <= b@.len(),
    ensures
        match r {
            Some((x, p)) => pos <= p <= b@.len() && take_u32(b@.skip(pos as int)) == Some(
                (x, b@.skip(p as int)),
            ),
            None => take_u32(b@.skip(pos as int)) is None,
        },
{
    if b.len() - pos < 4 {
        return None;
    }
    let v = copy_range(b, pos, pos + 4);
    let x = u32_from_le_bytes(v.as_slice());
    assert(v@ =~= b@.skip(pos as int).take(4));
    assert(b@.skip(pos as int).skip(4) =~= b@.skip(pos + 4));
    Some((x, pos + 4))
}

fn read_u64(b: &Vec<u8>, pos: usize) -> (r: Option<(u64, usize)>)
    requires
        pos <= b@.len(),
    ensures
        match r {
            Some((x, p)) => pos <= p <= b@.len() && take_u64(b@.skip(pos as int)) == Some(
                (x, b@.skip(p as int)),
            ),
            None => take_u64(b@.skip(pos as int)) is None,
        },
{
    if b.len() - pos < 8 {
        return None;
    }
    let v = copy_range(b, pos, pos + 8);
    let x = u64_from_le_bytes(v.as_slice());
    assert(v@ =~= b@.skip(pos as int).take(8));
    assert(b@.skip(pos as int).skip(8) =~= b@.skip(pos + 8));
    Some((x, pos + 8))
}

fn read_bytes(b: &Vec<u8>, pos: usize) -> (r: Option<(Vec<u8>, usize)>)
    requires
        pos <= b@.len(),
    ensures
        match r {
            Some((x, p)) => pos <= p <= b@.len() && take_bytes(b@.skip(pos as int)) == Some(
                (x@, b@.skip(p as int)),
            ),
            None => take_bytes(b@.skip(pos as int)) is None,
        },
{
    match read_u32(b, pos) {
        None => None,
        Some((n, p)) => {
            if n as u64 > (b.len() - p) as u64 {
                return None;
            }
            let end = p + n as usize;
            let x = copy_range(b, p, end);
            assert(x@ =~= b@.skip(p as int).take(n as int));
            assert(b@.skip(p as int).skip(n as int) =~= b@.skip(end as int));
            Some((x, end))
        },
    }
}

fn read_text(b: &Vec<u8>, pos: usize) -> (r: Option<(String, usize)>)
    requires
        pos <= b@.len(),
    ensures
        match r {
            Some((x, p)) => pos <= p <= b@.len() && take_text(b@.skip(pos as int)) == Some(
                (x@, b@.skip(p as int)),
            ),
            None => take_text(b@.skip(pos as int)) is None,
        },
{
    match read_bytes(b, pos) {
        None => None,
        Some((x, p)) => match string_from_utf8(x) {
            Some(s) => Some((s, p)),
            None => None,
        },
    }
}

fn read_update(b: &Vec<u8>, pos: usize) -> (r: Option<(Update, usize)>)
    requires
        pos <= b@.len(),
    ensures
        match r {
            Some((u, p)) => pos <= p <= b@.len() && take_update(b@.skip(pos as int)) == Some(
                (u@, b@.skip(p as int)),
            ),
            None => take_update(b@.skip(pos as int)) is None,
        },
{
    let (status, at1) = match read_text(b, pos) {
        Some(x) => x,
        None => return None,
    };
    let (details, at2) = match read_text(b, at1) {
        Some(x) => x,
        None => return None,
    };
    let (timestamp, at3) = match read_u64(b, at2) {
        Some(x) => x,
        None => return None,
    };
    let (updated_by, at4) = match read_bytes(b, at3) {
        Some(x) => x,
        None => return None,
    };
    Some((Update { status, details, timestamp, updated_by }, at4))
}

fn read_updates(b: &Vec<u8>, pos: usize, n: u32) -> (r: Option<(Vec<Update>, usize)>)
    requires
        pos <= b@.len(),
    ensures
        match r {
            Some((v, p)) => pos <= p <= b@.len() && take_updates(b@.skip(pos as int), n as nat)
                == Some((updates_view(v@), b@.skip(p as int))),
            None => take_updates(b@.skip(pos as int), n as nat) is None,
        },
{
    let mut v: Vec<Update> = Vec::new();
    let mut p: usize = pos;
    let mut i: u32 = 0;
    while i < n
        invariant
            pos <= p <= b@.len(),
            0 <= i <= n,
            take_updates(b@.skip(pos as int), n as nat) == prepend(
                updates_view(v@),
                take_updates(b@.skip(p as int), (n - i) as nat),
            ),
        decreases n - i,
    {
        let ghost before = updates_view(v@);
        match read_update(b, p) {
            None => return None,
            Some((u, q)) => {
                let ghost uv = u@;
                v.push(u);
                proof {
                    assert(updates_view(v@) =~= before + seq![uv]);
                    let rest = take_updates(b@.skip(q as int), (n - i - 1) as nat);
                    match rest {
                        Some((s, r)) => {
                            assert(before + (seq![uv] + s) =~= updates_view(v@) + s);
                        },
                        None => {},
                    }
                }
                p = q;
                i = i + 1;
            },
        }
    }
    proof {
        assert(updates_view(v@) + Seq::<UpdateV>::empty() =~= updates_view(v@));
    }
    Some((v, p))
}

impl Update {
    /// The record of this update, or `TooLarge` when it does not fit in one.
    pub fn to_bytes(&self) -> (r: Result<Vec<u8>, CodecError>)
        ensures
            match r {
                Ok(b) => update_fits(self@) && b@ == enc_update(self@),
                Err(e) => !update_fits(self@) && e == CodecError::TooLarge,
            },
    {
        let mut out: Vec<u8> = Vec::new();
        if push_update(&mut out, self) {
            assert(out@ =~= enc_update(self@));
            Ok(out)
        } else {
            Err(CodecError::TooLarge)
        }
    }

    /// The update that `b` is the record of, or `Corrupt`.
    pub fn from_bytes(b: &Vec<u8>) -> (r: Result<Update, CodecError>)
        ensures
            match r {
                Ok(u) => parse_update(b@) == Some(u@),
                Err(e) => parse_update(b@) is None && e == CodecError::Corrupt,
            },
    {
        assert(b@.skip(0) =~= b@);
        match read_update(b, 0) {
            Some((u, p)) => {
                if p == b.len() {
                    Ok(u)
                } else {
                    Err(CodecError::Corrupt)
                }
            },
            None => Err(CodecError::Corrupt),
        }
    }
}

impl CoffeeLot {
    /// The record of this lot, or `TooLarge` when it does not fit in one.
    pub fn to_bytes(&self) -> (r: Result<Vec<u8>, CodecError>)
        ensures
            match r {
                Ok(b) => lot_fits(self@) && b@ == enc_lot(self@),
                Err(e) => !lot_fits(self@) && e == CodecError::TooLarge,
            },
    {
        let mut out: Vec<u8> = Vec::new();
        if push_lot(&mut out, self) {
            assert(out@ =~= enc_lot(self@));
            Ok(out)
        } else {
            Err(CodecError::TooLarge)
        }
    }

    /// The lot that `b` is the record of, or `Corrupt`.
    pub fn from_bytes(b: &Vec<u8>) -> (r: Result<CoffeeLot, CodecError>)
        ensures
            match r {
                Ok(l) => parse_lot(b@) == Some(l@),
                Err(e) => parse_lot(b@) is None && e == CodecError::Corrupt,
            },
    {
        assert(b@.skip(0) =~= b@);
        let (id, at0) = match read_u64(b, 0) {
            Some(x) => x,
            None => return Err(CodecError::Corrupt),
        };
        let (farmer, at1) = match read_text(b, at0) {
            Some(x) => x,
            None => return Err(CodecError::Corrupt),
        };
        let (harvest_date, at2) = match read_text(b, at1) {
            Some(x) => x,
            None => return Err(CodecError::Corrupt),
        };
        let (location, at3) = match read_text(b, at2) {
            Some(x) => x,
            None => return Err(CodecError::Corrupt),
        };
        let (status, at4) = match read_text(b, at3) {
            Some(x) => x,
            None => return Err(CodecError::Corrupt),
        };
        let (n, at5) = match read_u32(b, at4) {
            Some(x) => x,
            None => return Err(CodecError::Corrupt),
        };
        let (updates, at6) = match read_updates(b, at5, n) {
            Some(x) => x,
            None => return Err(CodecError::Corrupt),
        };
        let (timestamp, at7) = match read_u64(b, at6) {
            Some(x) => x,
            None => return Err(CodecError::Corrupt),
        };
        if at7 != b.len() {
            return Err(CodecError::Corrupt);
        }
        Ok(CoffeeLot { id, farmer, harvest_date, location, status, updates, timestamp })
    }
}

} // verus!
