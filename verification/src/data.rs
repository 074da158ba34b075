//! The size measurements of the test images: for each image its name, its
//! file size, the size of its lossless encoding and the smallest size of its
//! lossy encodings, kept in bincode form in a file of their own.
use vstd::prelude::*;
use crate::restore::occurs_at;
use crate::text::chars_of;

verus! {

/// Four columns, one entry per measured image.
pub struct Records {
    pub names: Vec<String>,
    pub sizes: Vec<usize>,
    pub lossless: Vec<usize>,
    pub lossy: Vec<usize>,
}

impl View for Records {
    type V = (Seq<Seq<char>>, Seq<usize>, Seq<usize>, Seq<usize>);

    open spec fn view(&self) -> Self::V {
        (self.names@.map_values(|s: String| s@), self.sizes@, self.lossless@, self.lossy@)
    }
}

/// What `bincode::deserialize` gives for the bytes, read as a tuple of a list
/// of strings and three lists of `u64`; `None` where it fails.
pub uninterp spec fn records_of_bytes(bytes: Seq<u8>) -> Option<(Seq<Seq<char>>, Seq<u64>, Seq<u64>, Seq<u64>)>;

/// What `bincode::serialize` gives for a tuple of a list of strings and
/// three lists of `u64`.
pub uninterp spec fn bytes_of_records(names: Seq<Seq<char>>, sizes: Seq<u64>, lossless: Seq<u64>, lossy: Seq<u64>) -> Seq<u8>;

/// `bincode::deserialize` of the bytes as `(Vec<String>, Vec<u64>, Vec<u64>,
/// Vec<u64>)`, its error turned into `None`. A `usize` is written as a `u64`
/// in this format, so these are the bytes of the same tuple with `usize`
/// sizes. The result is named, not described: reading from a slice, bincode
/// checks every length against the bytes left and returns an error where
/// they run out, and does not panic.
#[verifier::external_body]
fn read_records(bytes: &[u8]) -> (res: Option<(Vec<String>, Vec<u64>, Vec<u64>, Vec<u64>)>)
    ensures
        match res {
            Some(r) => records_of_bytes(bytes@) == Some(
                (r.0@.map_values(|s: String| s@), r.1@, r.2@, r.3@),
            ),
            None => records_of_bytes(bytes@) is None,
        },
{
    bincode::deserialize::<(Vec<String>, Vec<u64>, Vec<u64>, Vec<u64>)>(bytes).ok()
}

/// `bincode::serialize` of the tuple of the four columns. Its only errors
/// are a size limit (the function sets none) and a sequence of unknown
/// length (a `Vec` knows its length), so the `unwrap` never panics.
#[verifier::external_body]
fn write_records(names: &Vec<String>, sizes: &Vec<u64>, lossless: &Vec<u64>, lossy: &Vec<u64>) -> (res: Vec<u8>)
    ensures
        res@ == bytes_of_records(names@.map_values(|s: String| s@), sizes@, lossless@, lossy@),
{
    bincode::serialize(&(names, sizes, lossless, lossy)).unwrap()
}

/// The sizes as `usize`, where every one fits.
pub open spec fn narrow_sizes(s: Seq<u64>) -> Option<Seq<usize>> {
    if forall|i: int| 0 <= i < s.len() ==> #[trigger] s[i] <= usize::MAX {
        Some(s.map_values(|x: u64| x as usize))
    } else {
        None
    }
}

/// The sizes as `u64`.
pub open spec fn widen_sizes(s: Seq<usize>) -> Seq<u64> {
    s.map_values(|x: usize| x as u64)
}

/// The records that the bytes hold: `None` where they are not the bincode
/// form of the four columns, or a size does not fit in `usize`.
pub open spec fn records_spec(bytes: Seq<u8>) -> Option<(Seq<Seq<char>>, Seq<usize>, Seq<usize>, Seq<usize>)> {
    match records_of_bytes(bytes) {
        None => None,
        Some(r) => match (narrow_sizes(r.1), narrow_sizes(r.2), narrow_sizes(r.3)) {
            (Some(a), Some(b), Some(c)) => Some((r.0, a, b, c)),
            _ => None,
        },
    }
}

fn narrow(v: &Vec<u64>) -> (res: Option<Vec<usize>>)
    ensures
        match res {
            Some(w) => narrow_sizes(v@) == Some(w@),
            None => narrow_sizes(v@) is None,
        },
{
    let mut out: Vec<usize> = Vec::new();
    let mut i: usize = 0;
    while i < v.len()
        invariant
            i <= v@.len(),
            out@ == v@.take(i as int).map_values(|x: u64| x as usize),
            forall|j: int| 0 <= j < i ==> #[trigger] v@[j] <= usize::MAX,
        decreases v@.len() - i,
    {
        if v[i] > usize::MAX as u64 {
            assert(!(v@[i as int] <= usize::MAX));
            return None;
        }
        out.push(v[i] as usize);
        i += 1;
        assert(out@ =~= v@.take(i as int).map_values(|x: u64| x as usize));
    }
    assert(v@.take(i as int) =~= v@);
    Some(out)
}

fn widen(v: &Vec<usize>) -> (res: Vec<u64>)
    ensures
        res@ == widen_sizes(v@),
{
    let mut out: Vec<u64> = Vec::new();
    let mut i: usize = 0;
    while i < v.len()
        invariant
            i <= v@.len(),
            out@ == widen_sizes(v@.take(i as int)),
        decreases v@.len() - i,
    {
        out.push(v[i] as u64);
        i += 1;
        assert(out@ =~= widen_sizes(v@.take(i as int)));
    }
    assert(v@.take(i as int) =~= v@);
    out
}

/// The records read from the bytes of the measurements file (see
/// `records_spec`).
pub fn parse_records(bytes: &[u8]) -> (res: Option<Records>)
    ensures
        match records_spec(bytes@) {
            Some(r) => res matches Some(x) && x@ == r,
            None => res is None,
        },
{
    let (names, sizes, lossless, lossy) = match read_records(bytes) {
        None => return None,
        Some(r) => r,
    };
    let sizes = match narrow(&sizes) {
        None => return None,
        Some(s) => s,
    };
    let lossless = match narrow(&lossless) {
        None => return None,
        Some(s) => s,
    };
    let lossy = match narrow(&lossy) {
        None => return None,
        Some(s) => s,
    };
    Some(Records { names, sizes, lossless, lossy })
}

/// The bytes the records are stored as.
pub fn records_bytes(r: &Records) -> (res: Vec<u8>)
    ensures
        res@ == bytes_of_records(r@.0, widen_sizes(r@.1), widen_sizes(r@.2), widen_sizes(r@.3)),
{
    let sizes = widen(&r.sizes);
    let lossless = widen(&r.lossless);
    let lossy = widen(&r.lossy);
    write_records(&r.names, &sizes, &lossless, &lossy)
}

/// The smallest of the sizes.
pub fn min_size(v: &Vec<usize>) -> (res: usize)
    requires
        v@.len() >= 1,
    ensures
        v@.contains(res),
        forall|j: int| 0 <= j < v@.len() ==> res <= #[trigger] v@[j],
{
    let mut m: usize = v[0];
    let mut k: usize = 0;
    let mut i: usize = 1;
    while i < v.len()
        invariant
            1 <= i <= v@.len(),
            k < i,
            v@[k as int] == m,
            forall|j: int| 0 <= j < i ==> m <= #[trigger] v@[j],
        decreases v@.len() - i,
    {
        if v[i] < m {
            m = v[i];
            k = i;
        }
        i += 1;
    }
    m
}

impl Records {
    /// Adds one image's measurements: its name, its file size, the size of
    /// its lossless encoding and the smallest of its lossy encodings' sizes.
    pub fn record_measurement(&mut self, name: String, size: usize, lossless: usize, lossy: &Vec<usize>)
        requires
            lossy@.len() >= 1,
        ensures
            final(self)@.0 == old(self)@.0.push(name@),
            final(self)@.1 == old(self)@.1.push(size),
            final(self)@.2 == old(self)@.2.push(lossless),
            final(self)@.3.len() == old(self)@.3.len() + 1,
            final(self)@.3.drop_last() == old(self)@.3,
            lossy@.contains(final(self)@.3.last()),
            forall|j: int| 0 <= j < lossy@.len() ==> final(self)@.3.last() <= #[trigger] lossy@[j],
    {
        let m = min_size(lossy);
        self.names.push(name);
        self.sizes.push(size);
        self.lossless.push(lossless);
        self.lossy.push(m);
        proof {
            assert(self@.0 =~= old(self)@.0.push(name@));
            assert(self@.3.drop_last() =~= old(self)@.3);
        }
    }
}

/// `w` occurs in `s` at some position.
pub open spec fn contains_word(s: Seq<char>, w: Seq<char>) -> bool {
    exists|i: int| 0 <= i && i + w.len() <= s.len() && #[trigger] s.skip(i).take(w.len() as int) == w
}

/// `s` begins with `p`.
pub open spec fn starts_with_spec(s: Seq<char>, p: Seq<char>) -> bool {
    p.len() <= s.len() && s.take(p.len() as int) == p
}

/// Whether an image of the test folder is measured: its file name begins
/// with the prefix asked for and does not contain `credits`.
pub fn measured(file_name: &str, prefix: &str) -> (res: bool)
    ensures
        res == (starts_with_spec(file_name@, prefix@) && !contains_word(
            file_name@,
            seq!['c', 'r', 'e', 'd', 'i', 't', 's'],
        )),
{
    let s = chars_of(file_name);
    let p = chars_of(prefix);
    assert(s@.skip(0) =~= s@);
    if !occurs_at(s.as_slice(), p.as_slice(), 0) {
        return false;
    }
    assert(starts_with_spec(file_name@, prefix@));
    let w: Vec<char> = vec!['c', 'r', 'e', 'd', 'i', 't', 's'];
    let ghost ws = seq!['c', 'r', 'e', 'd', 'i', 't', 's'];
    assert(w@ =~= ws);
    let mut i: usize = 0;
    while i < s.len()
        invariant
            i <= s@.len(),
            w@ == ws,
            ws == seq!['c', 'r', 'e', 'd', 'i', 't', 's'],
            s@ == file_name@,
            starts_with_spec(file_name@, prefix@),
            forall|j: int| 0 <= j < i ==> !(j + ws.len() <= s@.len() && #[trigger] s@.skip(j).take(ws.len() as int) == ws),
        decreases s@.len() - i,
    {
        if occurs_at(s.as_slice(), w.as_slice(), i) {
            assert(s@.skip(i as int).take(ws.len() as int) == ws);
            assert(contains_word(file_name@, ws));
            return false;
        }
        i += 1;
    }
    true
}

} // verus!
