use vstd::prelude::*;

verus! {

/// The MD5 digest of a text's UTF-8 bytes. The digest is a fixed function of
/// the text alone; its value is given only by the outside routine below.
pub uninterp spec fn md5_of(s: Seq<char>) -> Seq<u8>;

/// Relies on md5::compute: the 16-byte MD5 digest of the phrase's UTF-8
/// bytes, a function of the text alone.
#[verifier::external_body]
pub(crate) fn compute_md5(phrase: &str) -> (r: Vec<u8>)
    ensures
        r@ == md5_of(phrase@),
        r@.len() == 16,
{
    md5::compute(phrase.as_bytes()).0.to_vec()
}

/// Declares std::time::Instant so that it can stand in signatures; the value
/// is opaque and only carried through to the clock routines below.
#[verifier::external_type_specification]
#[verifier::external_body]
pub struct ExInstant(std::time::Instant);

/// Relies on std::time::Instant::now for a reference point in time; nothing
/// is promised of the value.
#[verifier::external_body]
pub(crate) fn clock_now() -> std::time::Instant {
    std::time::Instant::now()
}

/// Relies on std::time::Instant::elapsed and Duration::as_millis for the
/// milliseconds since the reference point; nothing is promised of the value.
#[verifier::external_body]
pub(crate) fn clock_elapsed_ms(start: &std::time::Instant) -> u64 {
    start.elapsed().as_millis() as u64
}

/// Whether a digest stands in the list of target digests.
pub open spec fn digest_listed(targets: Seq<Vec<u8>>, dg: Seq<u8>) -> bool {
    exists|t: int| 0 <= t < targets.len() && (#[trigger] targets[t])@ == dg
}

/// Whether two byte vectors hold the same bytes.
pub fn eq_bytes(a: &Vec<u8>, b: &Vec<u8>) -> (r: bool)
    ensures
        r == (a@ == b@),
{
    if a.len() != b.len() {
        return false;
    }
    let mut i: usize = 0;
    while i < a.len()
        invariant
            i <= a@.len(),
            a@.len() == b@.len(),
            forall|q: int| 0 <= q < i ==> a@[q] == b@[q],
        decreases a@.len() - i,
    {
        if a[i] != b[i] {
            return false;
        }
        i = i + 1;
    }
    proof {
        assert(a@ =~= b@);
    }
    true
}

/// A copy of a byte vector.
pub fn copy_bytes(v: &Vec<u8>) -> (r: Vec<u8>)
    ensures
        r@ == v@,
{
    let mut out: Vec<u8> = Vec::new();
    let mut i: usize = 0;
    while i < v.len()
        invariant
            i <= v@.len(),
            out@ == v@.subrange(0, i as int),
        decreases v@.len() - i,
    {
        out.push(v[i]);
        proof {
            assert(out@ =~= v@.subrange(0, i + 1 as int));
        }
        i = i + 1;
    }
    proof {
        assert(v@.subrange(0, v@.len() as int) =~= v@);
    }
    out
}

/// Whether the digest is one of the targets.
pub fn digest_in(targets: &Vec<Vec<u8>>, dg: &Vec<u8>) -> (r: bool)
    ensures
        r == digest_listed(targets@, dg@),
{
    let mut t: usize = 0;
    while t < targets.len()
        invariant
            t <= targets@.len(),
            forall|q: int| 0 <= q < t ==> (#[trigger] targets@[q])@ != dg@,
        decreases targets@.len() - t,
    {
        if eq_bytes(&targets[t], dg) {
            return true;
        }
        t = t + 1;
    }
    false
}

} // verus!
