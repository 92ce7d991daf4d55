//! Where a node keeps its data.
//!
//! Paths are byte strings, as the platform has them: most of them are text, but they need
//! not be.
use crate::bytes::to_vec;
use vstd::prelude::*;
use vstd::string::*;

verus! {

/// The name of the directory among those of other applications.
pub const APP_NAME: &'static str = "lattice";

/// The path that a text is.
pub open spec fn path_of_text(t: Seq<char>) -> Seq<u8> {
    vstd::utf8::encode_utf8(t)
}

/// The path of something in a directory: the two of them with a slash between,
/// unless the directory has one at its end or is empty. An absolute path stays as
/// it is.
pub open spec fn path_in(dir: Seq<u8>, name: Seq<char>) -> Seq<u8> {
    let n = path_of_text(name);
    if n.len() > 0 && n[0] == 47 {
        n
    } else if dir.len() == 0 || dir.last() == 47 {
        dir + n
    } else {
        dir.push(47) + n
    }
}

/// The path of something in a directory.
pub fn join_path(dir: &[u8], name: &str) -> (r: Vec<u8>)
    ensures
        r@ == path_in(dir@, name@),
{
    let mut tail: Vec<u8> = to_vec(name.as_bytes());
    if tail.len() > 0 && tail[0] == 47 {
        return tail;
    }
    let mut r: Vec<u8> = to_vec(dir);
    if dir.len() > 0 && dir[dir.len() - 1] != 47 {
        r.push(47);
    }
    r.append(&mut tail);
    r
}

/// Calls `dirs::data_dir`: the directory for the data of applications, where the
/// platform has one, as the bytes of its path. Nothing is claimed of it.
#[verifier::external_body]
fn platform_data_dir() -> (r: Option<Vec<u8>>) {
    dirs::data_dir().map(|d| d.into_os_string().into_encoded_bytes())
}

/// The paths of a node's data:
/// - `identity.key`, the secret key,
/// - `logs/{author_id}.log`, the log of every author,
/// - `state.db`, the key-value state.
#[derive(Debug, PartialEq, Eq)]
pub struct DataDir {
    base: Vec<u8>,
}

impl View for DataDir {
    type V = Seq<u8>;

    closed spec fn view(&self) -> Seq<u8> {
        self.base@
    }
}

impl Clone for DataDir {
    fn clone(&self) -> (r: Self)
        ensures
            r@ == self@,
    {
        DataDir { base: to_vec(self.base.as_slice()) }
    }
}

impl Default for DataDir {
    /// The place for the platform, or `./data` where there is none.
    fn default() -> (r: Self)
        ensures
            r@ == path_of_text("./data"@) || exists|dir: Seq<u8>|
                r@ == #[trigger] path_in(dir, "lattice"@),
    {
        match platform_data_dir() {
            Some(dir) => DataDir::in_dir_or_local(Some(dir.as_slice())),
            None => DataDir::in_dir_or_local(None),
        }
    }
}

impl DataDir {
    /// The data under the given path.
    pub fn new(base: Vec<u8>) -> (r: Self)
        ensures
            r@ == base@,
    {
        DataDir { base }
    }

    /// The data in the platform's directory for the data of applications.
    pub fn in_platform_dir(dir: &[u8]) -> (r: Self)
        ensures
            r@ == path_in(dir@, "lattice"@),
    {
        DataDir { base: join_path(dir, APP_NAME) }
    }

    /// The data in the platform's directory for the data of applications, or in `./data`
    /// where the platform has none.
    pub fn in_dir_or_local(dir: Option<&[u8]>) -> (r: Self)
        ensures
            r@ == match dir {
                Some(d) => path_in(d@, "lattice"@),
                None => path_of_text("./data"@),
            },
    {
        match dir {
            Some(d) => DataDir::in_platform_dir(d),
            None => DataDir::new(to_vec("./data".as_bytes())),
        }
    }

    /// The data in the place for the platform, if there is one.
    pub fn default_location() -> (r: Option<Self>)
        ensures
            r matches Some(d) ==> exists|dir: Seq<u8>| d@ == #[trigger] path_in(dir, "lattice"@),
    {
        match platform_data_dir() {
            Some(dir) => Some(DataDir::in_platform_dir(dir.as_slice())),
            None => None,
        }
    }

    /// The path of the directory.
    pub fn base(&self) -> (r: &[u8])
        ensures
            r@ == self@,
    {
        self.base.as_slice()
    }

    /// The path of the secret key.
    pub fn identity_key(&self) -> (r: Vec<u8>)
        ensures
            r@ == path_in(self@, "identity.key"@),
    {
        join_path(self.base.as_slice(), "identity.key")
    }

    /// The path of the directory of logs.
    pub fn logs_dir(&self) -> (r: Vec<u8>)
        ensures
            r@ == path_in(self@, "logs"@),
    {
        join_path(self.base.as_slice(), "logs")
    }

    /// The path of an author's log.
    pub fn log_file(&self, author_id_hex: &str) -> (r: Vec<u8>)
        ensures
            r@ == path_in(path_in(self@, "logs"@), author_id_hex@ + ".log"@),
    {
        let dir = self.logs_dir();
        let name = author_id_hex.to_owned().concat(".log");
        join_path(dir.as_slice(), name.as_str())
    }

    /// The path of the key-value state.
    pub fn state_db(&self) -> (r: Vec<u8>)
        ensures
            r@ == path_in(self@, "state.db"@),
    {
        join_path(self.base.as_slice(), "state.db")
    }

    /// The directories that have to be there, in the order in which they are to
    /// be made.
    pub fn required_dirs(&self) -> (r: Vec<Vec<u8>>)
        ensures
            r@.len() == 2,
            r@[0]@ == self@,
            r@[1]@ == path_in(self@, "logs"@),
    {
        let mut dirs: Vec<Vec<u8>> = Vec::new();
        dirs.push(to_vec(self.base.as_slice()));
        dirs.push(self.logs_dir());
        dirs
    }
}

/// A name in a directory: the directory, one slash where it does not end in one, and the
/// name. In no directory it is the name alone, and an absolute name stays as it is.
pub proof fn law_path_joins_directory_and_name(dir: Seq<u8>, name: Seq<char>)
    ensures
        ({
            let n = vstd::utf8::encode_utf8(name);
            let p = path_in(dir, name);
            &&& n.len() > 0 && n[0] == 47 ==> p == n
            &&& !(n.len() > 0 && n[0] == 47) ==> {
                &&& dir.len() == 0 ==> p == n
                &&& dir.len() > 0 && dir.last() == 47 ==> p == dir + n
                &&& dir.len() > 0 && dir.last() != 47 ==> p == dir + seq![47u8] + n
            }
        }),
{
    let n = vstd::utf8::encode_utf8(name);
    assert(Seq::<u8>::empty() + n =~= n);
    if dir.len() == 0 {
        assert(dir + n =~= n);
    }
    assert(dir.push(47) =~= dir + seq![47u8]);
}

} // verus!
