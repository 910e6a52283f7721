use vstd::prelude::*;

use vstd::hash_map::StringHashMap;

verus! {

/// The SHA-1 digest of `data`.
pub uninterp spec fn sha1_of(data: Seq<u8>) -> Seq<u8>;

/// Relies on sha1::Sha1 through digest::Digest::digest: the 20-byte SHA-1 digest of `data`.
#[verifier::external_body]
fn sha1_digest(data: &[u8]) -> (r: Vec<u8>)
    ensures
        r@ == sha1_of(data@),
        r@.len() == 20,
{
    <sha1::Sha1 as sha1::Digest>::digest(data).to_vec()
}

/// Lowercase hexadecimal digit for `n` < 16.
pub open spec fn hex_digit(n: u8) -> char {
    if n < 10 {
        (('0' as u8) + n) as char
    } else {
        (('a' as u8) + (n - 10)) as char
    }
}

/// Two lowercase hexadecimal digits per byte, high half first.
pub open spec fn hex_lower(b: Seq<u8>) -> Seq<char>
    decreases b.len(),
{
    if b.len() == 0 {
        Seq::empty()
    } else {
        hex_lower(b.drop_last()) + seq![hex_digit(b.last() / 16), hex_digit(b.last() % 16)]
    }
}

proof fn lemma_hex_len(b: Seq<u8>)
    ensures
        hex_lower(b).len() == 2 * b.len(),
    decreases b.len(),
{
    if b.len() > 0 {
        lemma_hex_len(b.drop_last());
    }
}

/// Relies on hex::encode: two lowercase digits per byte, high half first.
#[verifier::external_body]
fn to_hex(b: &[u8]) -> (r: String)
    ensures
        r@ == hex_lower(b@),
{
    hex::encode(b)
}

/// The content hash recorded for a file: its SHA-1 digest in lowercase hexadecimal.
pub fn content_hash(data: &[u8]) -> (r: String)
    ensures
        r@ == hex_lower(sha1_of(data@)),
        r@.len() == 40,
{
    let d = sha1_digest(data);
    proof {
        lemma_hex_len(d@);
    }
    to_hex(d.as_slice())
}

/// Content hashes by relative path, computed once per run.
pub struct HashCache {
    cache: StringHashMap<String>,
}

impl HashCache {
    pub closed spec fn view(&self) -> Map<Seq<char>, Seq<char>> {
        self.cache@.map_values(|h: String| h@)
    }

    pub fn new() -> (r: HashCache)
        ensures
            r@ == Map::<Seq<char>, Seq<char>>::empty(),
    {
        let r = HashCache { cache: StringHashMap::new() };
        assert(r@ =~= Map::<Seq<char>, Seq<char>>::empty());
        r
    }

    /// The hash remembered for `relative_path`, if any.
    pub fn cached(&self, relative_path: &str) -> (r: Option<String>)
        ensures
            match r {
                Some(h) => self@.contains_key(relative_path@) && h@ == self@[relative_path@],
                None => !self@.contains_key(relative_path@),
            },
    {
        match self.cache.get(relative_path) {
            Some(h) => Some(h.clone()),
            None => None,
        }
    }

    /// Hashes `contents`, read from `relative_path`, and remembers the result.
    pub fn record(&mut self, relative_path: &str, contents: &[u8]) -> (r: String)
        ensures
            r@ == hex_lower(sha1_of(contents@)),
            r@.len() == 40,
            final(self)@ == old(self)@.insert(relative_path@, r@),
    {
        let h = content_hash(contents);
        self.cache.insert(relative_path.to_owned(), h.clone());
        assert(self@ =~= old(self)@.insert(relative_path@, h@));
        h
    }
}

} // verus!
