use vstd::prelude::*;
use crate::codec::{chars_of, encode_strings, parse_strings, parse_strings_spec, strings_fit, strings_image};
use crate::error::Error;

verus! {

/// Whether `r` is the index that interning `s` into `t` returns, with `t2`
/// the table afterwards: the first index holding `s`, the table unchanged;
/// or, when `s` is absent, a new last entry.
pub open spec fn interned(t: Seq<Seq<char>>, s: Seq<char>, t2: Seq<Seq<char>>, r: int) -> bool {
    if exists|j: int| 0 <= j < t.len() && t[j] == s {
        &&& t2 == t
        &&& 0 <= r < t.len()
        &&& t[r] == s
        &&& forall|j: int| 0 <= j < r ==> t[j] != s
    } else {
        &&& t2 == t.push(s)
        &&& r == t.len()
    }
}

/// No string appears twice.
pub open spec fn distinct(t: Seq<Seq<char>>) -> bool {
    forall|i: int, j: int| 0 <= i < t.len() && 0 <= j < t.len() && i != j ==> t[i] != t[j]
}

/// An ordered, append-only list of strings that the tables refer to by index.
pub struct StringTable {
    strings: Vec<String>,
}

impl View for StringTable {
    type V = Seq<Seq<char>>;

    closed spec fn view(&self) -> Seq<Seq<char>> {
        chars_of(self.strings@)
    }
}

impl StringTable {
    /// An empty table.
    pub fn new() -> (r: StringTable)
        ensures
            r@ == Seq::<Seq<char>>::empty(),
    {
        let r = StringTable { strings: Vec::new() };
        assert(r@ =~= Seq::<Seq<char>>::empty());
        r
    }

    /// A table holding `strings` in order.
    pub fn from_strings(strings: Vec<String>) -> (r: StringTable)
        ensures
            r@ == chars_of(strings@),
    {
        StringTable { strings }
    }

    /// Number of entries.
    pub fn len(&self) -> (r: usize)
        ensures
            r == self@.len(),
    {
        self.strings.len()
    }

    /// The entries in order.
    pub fn strings(&self) -> (r: &Vec<String>)
        ensures
            chars_of(r@) == self@,
    {
        &self.strings
    }

    /// The string at index `i`; `NotFound` when `i` is past the end.
    pub fn lookup(&self, i: u64) -> (r: Result<String, Error>)
        ensures
            i < self@.len() ==> (r matches Ok(s) && s@ == self@[i as int]),
            i >= self@.len() ==> r == Err::<String, Error>(Error::NotFound),
    {
        if i >= self.strings.len() as u64 {
            return Err(Error::NotFound);
        }
        let s = self.strings[i as usize].clone();
        Ok(s)
    }

    /// The first index that holds `s`, if any.
    pub fn position(&self, s: &str) -> (r: Option<u64>)
        ensures
            r matches Some(i) ==> (i < self@.len() && self@[i as int] == s@ && forall|j: int|
                0 <= j < i ==> self@[j] != s@),
            r is None ==> forall|j: int| 0 <= j < self@.len() ==> self@[j] != s@,
    {
        let target = s.to_owned();
        let mut i: usize = 0;
        while i < self.strings.len()
            invariant
                i <= self.strings@.len(),
                target@ == s@,
                forall|j: int| 0 <= j < i ==> self@[j] != s@,
            decreases self.strings@.len() - i,
        {
            if self.strings[i] == target {
                return Some(i as u64);
            }
            i = i + 1;
        }
        None
    }

    /// The index of `s`, appending it when absent. Interning a string twice
    /// gives the same index.
    pub fn intern(&mut self, s: &str) -> (r: u64)
        ensures
            interned(old(self)@, s@, final(self)@, r as int),
    {
        match self.position(s) {
            Some(i) => i,
            None => {
                let n = self.strings.len();
                self.strings.push(s.to_owned());
                assert(self@ =~= old(self)@.push(s@));
                n as u64
            },
        }
    }

    /// The encoded table: each string as a `u16` byte count and its UTF-8
    /// bytes. `TooLarge` when a string has more than 65535 bytes.
    pub fn serialise(&self) -> (r: Result<Vec<u8>, Error>)
        ensures
            match r {
                Ok(v) => strings_fit(self@) && v@ == strings_image(self@),
                Err(e) => !strings_fit(self@) && e == Error::TooLarge,
            },
    {
        encode_strings(&self.strings)
    }

    /// Decodes `count` strings starting at `pos`; returns the table and the
    /// position after it.
    pub fn parse(bytes: &Vec<u8>, pos: usize, count: u64) -> (r: Result<(StringTable, usize), Error>)
        requires
            pos <= bytes@.len(),
        ensures
            match parse_strings_spec(bytes@.skip(pos as int), count as nat) {
                Ok((xs, k)) => r matches Ok((t, e)) && t@ == xs && e == pos + k,
                Err(err) => r == Err::<(StringTable, usize), Error>(err),
            },
    {
        match parse_strings(bytes, pos, count) {
            Ok((v, e)) => Ok((StringTable { strings: v }, e)),
            Err(e) => Err(e),
        }
    }
}

/// Interning then looking up: the index that interning `s` returns holds `s`,
/// and in a table without repeats, interning the string at a valid index `i`
/// returns `i` and leaves the table as it was.
pub proof fn lemma_intern_lookup(t: Seq<Seq<char>>, s: Seq<char>, t2: Seq<Seq<char>>, r: int)
    requires
        interned(t, s, t2, r),
    ensures
        0 <= r < t2.len(),
        t2[r] == s,
        t2.len() >= t.len(),
        forall|j: int| 0 <= j < t.len() ==> t2[j] == t[j],
{
}

/// Interning the string found at a valid index of a table without repeats
/// returns that index.
pub proof fn lemma_lookup_intern(t: Seq<Seq<char>>, i: int, t2: Seq<Seq<char>>, r: int)
    requires
        distinct(t),
        0 <= i < t.len(),
        interned(t, t[i], t2, r),
    ensures
        r == i,
        t2 == t,
{
}

} // verus!
