//! Names of files.
//!
//! A path is the bytes the system knows it by. Nothing here opens one: the
//! library decides which files matter, and its caller reads them.

use vstd::prelude::*;
use vstd::utf8::encode_utf8;

verus! {

broadcast use vstd::string::group_string_axioms;

/// A path, as the bytes the system knows it by.
#[derive(PartialEq, Eq, Debug)]
pub struct FilePath {
    pub bytes: Vec<u8>,
}

impl View for FilePath {
    type V = Seq<u8>;

    open spec fn view(&self) -> Seq<u8> {
        self.bytes@
    }
}

impl Clone for FilePath {
    fn clone(&self) -> (r: FilePath)
        ensures
            r@ == self@,
    {
        let bytes = self.bytes.clone();
        proof {
            assert(bytes@ =~= self.bytes@);
        }
        FilePath { bytes }
    }
}

/// What separates the names in a path.
pub const SEPARATOR: u8 = 47;

/// A name inside a directory.
pub open spec fn inside(dir: Seq<u8>, name: Seq<u8>) -> Seq<u8> {
    if dir.len() == 0 || dir.last() == SEPARATOR {
        dir + name
    } else {
        dir.push(SEPARATOR) + name
    }
}

/// What a run of bytes reads as: the text it encodes, with a replacement
/// character in place of what is no UTF-8.
pub uninterp spec fn lossy(bytes: Seq<u8>) -> Seq<char>;

/// `String::from_utf8_lossy`. Its result is a function of the bytes alone;
/// which bytes it replaces, and by how many characters, is not stated.
#[verifier::external_body]
fn lossy_text(bytes: &[u8]) -> (r: String)
    ensures
        r@ == lossy(bytes@),
{
    String::from_utf8_lossy(bytes).into_owned()
}

impl FilePath {
    /// The path of a name.
    pub fn new(name: &str) -> (r: FilePath)
        ensures
            r@ == encode_utf8(name@),
    {
        FilePath { bytes: copied(name.as_bytes()) }
    }

    /// The path of a relative name inside this directory.
    pub fn join(&self, name: &str) -> (r: FilePath)
        ensures
            r@ == inside(self@, encode_utf8(name@)),
    {
        let mut bytes = copied(self.bytes.as_slice());
        let n: usize = bytes.len();
        if n > 0 && bytes[n - 1] != SEPARATOR {
            bytes.push(SEPARATOR);
        }
        let mut tail = copied(name.as_bytes());
        bytes.append(&mut tail);
        proof {
            assert(bytes@ =~= inside(self@, encode_utf8(name@)));
        }
        FilePath { bytes }
    }

    /// The path for people to read.
    pub fn display(&self) -> (r: String)
        ensures
            r@ == lossy(self@),
    {
        lossy_text(self.bytes.as_slice())
    }
}

/// A run of bytes of its own.
fn copied(s: &[u8]) -> (v: Vec<u8>)
    ensures
        v@ == s@,
{
    let mut v: Vec<u8> = Vec::new();
    let mut i: usize = 0;
    while i < s.len()
        invariant
            i <= s@.len(),
            v@ == s@.take(i as int),
        decreases s@.len() - i,
    {
        v.push(s[i]);
        i += 1;
    }
    proof {
        assert(s@.take(i as int) =~= s@);
    }
    v
}

/// A name stands at the end of the path it was joined into.
pub proof fn a_joined_name_comes_last(dir: Seq<u8>, name: Seq<u8>)
    ensures
        inside(dir, name).len() >= name.len(),
        inside(dir, name).skip(inside(dir, name).len() - name.len()) == name,
        dir == inside(dir, name).take(dir.len() as int),
{
    let all = inside(dir, name);
    assert(all.skip(all.len() - name.len()) =~= name);
    assert(dir =~= all.take(dir.len() as int));
}

/// One slash, and no more, stands between a directory and what is in it: it is
/// put there unless the directory ends in one, or there is no directory.
pub proof fn one_slash_separates_a_directory_from_a_name(dir: Seq<u8>, name: Seq<u8>)
    ensures
        dir.len() > 0 && dir.last() != 47u8 ==> inside(dir, name) == dir + seq![47u8] + name,
        dir.len() > 0 && dir.last() == 47u8 ==> inside(dir, name) == dir + name,
        dir.len() == 0 ==> inside(dir, name) == name,
{
    assert(dir.push(47u8) =~= dir + seq![47u8]);
    if dir.len() == 0 {
        assert(dir + name =~= name);
    }
}

} // verus!
