//! Bundle identities (Claire, James, Mark) and the resolver for the bundle's
//! file names.
//!
//! The bundle ships its identities side by side in one directory. File names
//! embed the identity's name as a suffix, such as `bs_skin_Claire.npz` or
//! `model_data_James.npz`.

use vstd::prelude::*;

use crate::text;

verus! {

/// Blendshape rig packaged in the bundle. Each identity has its own NPZ
/// files and JSON configs; the ONNX network is shared.
#[derive(Debug, Clone, Copy, PartialEq, Eq, Hash, Structural)]
pub enum Audio2FaceIdentity {
    /// Default identity; the bundle's tuning targets it.
    Claire,
    James,
    Mark,
}

impl Audio2FaceIdentity {
    /// Slot of the identity in the model's one-hot input.
    pub open spec fn slot(self) -> usize {
        match self {
            Audio2FaceIdentity::Claire => 0,
            Audio2FaceIdentity::James => 1,
            Audio2FaceIdentity::Mark => 2,
        }
    }

    /// Name of the identity as the bundle's file names spell it.
    pub open spec fn file_suffix(self) -> Seq<char> {
        match self {
            Audio2FaceIdentity::Claire => "Claire"@,
            Audio2FaceIdentity::James => "James"@,
            Audio2FaceIdentity::Mark => "Mark"@,
        }
    }

    /// Index in the model's identity one-hot input vector (3 slots).
    pub fn one_hot_index(self) -> (r: usize)
        ensures
            r == self.slot(),
            r < 3,
            self is Claire ==> r == 0,
            self is James ==> r == 1,
            self is Mark ==> r == 2,
    {
        match self {
            Audio2FaceIdentity::Claire => 0,
            Audio2FaceIdentity::James => 1,
            Audio2FaceIdentity::Mark => 2,
        }
    }

    /// Suffix used in file names within the bundle.
    pub fn suffix(self) -> (r: &'static str)
        ensures
            r@ == self.file_suffix(),
            self is Claire ==> r@ == "Claire"@,
            self is James ==> r@ == "James"@,
            self is Mark ==> r@ == "Mark"@,
    {
        match self {
            Audio2FaceIdentity::Claire => "Claire",
            Audio2FaceIdentity::James => "James",
            Audio2FaceIdentity::Mark => "Mark",
        }
    }
}

impl Default for Audio2FaceIdentity {
    fn default() -> (r: Self)
        ensures
            r == Audio2FaceIdentity::Claire,
    {
        Audio2FaceIdentity::Claire
    }
}

/// Path of `name` inside directory `root`: one separator between the two,
/// none when `root` is empty or already ends with one.
pub open spec fn path_in(root: Seq<char>, name: Seq<char>) -> Seq<char> {
    if root.len() == 0 || root.last() == '/' {
        root + name
    } else {
        root + seq!['/'] + name
    }
}

/// Resolves the canonical file names inside a bundle directory.
///
/// The directory is flat: every identity's NPZ and JSON files sit next to
/// the shared `network.onnx`. The resolver does not look at the disk.
#[derive(Debug, Clone)]
pub struct BundlePaths {
    pub root: String,
    pub identity: Audio2FaceIdentity,
}

impl BundlePaths {
    /// Path of `prefix<Identity>suffix` in the bundle.
    pub open spec fn identity_file(self, prefix: Seq<char>, suffix: Seq<char>) -> Seq<char> {
        path_in(self.root@, prefix + self.identity.file_suffix() + suffix)
    }

    /// Builds a resolver rooted at `root` for the given identity.
    pub fn new(root: &str, identity: Audio2FaceIdentity) -> (r: Self)
        ensures
            r.root@ == root@,
            r.identity == identity,
    {
        BundlePaths { root: root.to_owned(), identity }
    }

    fn join(&self, name: &str) -> (r: String)
        ensures
            r@ == path_in(self.root@, name@),
    {
        let n: usize = self.root.as_str().unicode_len();
        if n == 0 || self.root.as_str().get_char(n - 1) == '/' {
            text::joined(self.root.as_str(), name)
        } else {
            let dir = text::joined(self.root.as_str(), "/");
            proof {
                reveal_strlit("/");
                assert("/"@ =~= seq!['/']);
            }
            text::joined(dir.as_str(), name)
        }
    }

    fn join_identity(&self, prefix: &str, suffix: &str) -> (r: String)
        ensures
            r@ == self.identity_file(prefix@, suffix@),
    {
        let stem = text::joined(prefix, self.identity.suffix());
        let name = text::joined(stem.as_str(), suffix);
        self.join(name.as_str())
    }

    /// `network.onnx`, shared across identities.
    pub fn network_onnx(&self) -> (r: String)
        ensures
            r@ == path_in(self.root@, "network.onnx"@),
    {
        self.join("network.onnx")
    }

    /// `network_info.json`, shared across identities.
    pub fn network_info(&self) -> (r: String)
        ensures
            r@ == path_in(self.root@, "network_info.json"@),
    {
        self.join("network_info.json")
    }

    /// `bs_skin_<Identity>.npz`: blendshape vertex deltas.
    pub fn bs_skin_npz(&self) -> (r: String)
        ensures
            r@ == self.identity_file("bs_skin_"@, ".npz"@),
    {
        self.join_identity("bs_skin_", ".npz")
    }

    /// `bs_skin_config_<Identity>.json`: solver tuning.
    pub fn bs_skin_config(&self) -> (r: String)
        ensures
            r@ == self.identity_file("bs_skin_config_"@, ".json"@),
    {
        self.join_identity("bs_skin_config_", ".json")
    }

    /// `model_data_<Identity>.npz`: neutral skin and eye/lip pose deltas.
    pub fn model_data_npz(&self) -> (r: String)
        ensures
            r@ == self.identity_file("model_data_"@, ".npz"@),
    {
        self.join_identity("model_data_", ".npz")
    }

    /// `model_config_<Identity>.json`: model metadata.
    pub fn model_config(&self) -> (r: String)
        ensures
            r@ == self.identity_file("model_config_"@, ".json"@),
    {
        self.join_identity("model_config_", ".json")
    }
}

/// The path of a file begins with the directory and ends with the file's name;
/// between them stands one separator, unless the directory is empty or brings
/// its own.
pub proof fn law_paths_lie_in_the_bundle(root: Seq<char>, name: Seq<char>)
    ensures
        path_in(root, name).take(root.len() as int) == root,
        path_in(root, name).skip(path_in(root, name).len() - name.len()) == name,
        root.len() > 0 && root[root.len() - 1] != '/' ==> path_in(root, name).len() == root.len()
            + 1 + name.len() && path_in(root, name)[root.len() as int] == '/',
        root.len() == 0 || root[root.len() - 1] == '/' ==> path_in(root, name).len() == root.len()
            + name.len(),
{
    let path = path_in(root, name);
    assert(path.take(root.len() as int) =~= root);
    assert(path.skip(path.len() - name.len()) =~= name);
}

/// The files of an identity carry its name, and no two identities share a slot
/// or a file.
pub proof fn law_identities_are_kept_apart(
    a: Audio2FaceIdentity,
    b: Audio2FaceIdentity,
    prefix: Seq<char>,
    suffix: Seq<char>,
)
    ensures
        Audio2FaceIdentity::Claire.file_suffix() == "Claire"@,
        Audio2FaceIdentity::James.file_suffix() == "James"@,
        Audio2FaceIdentity::Mark.file_suffix() == "Mark"@,
        a.slot() == b.slot() ==> a == b,
        a.slot() < 3,
        prefix + a.file_suffix() + suffix == prefix + b.file_suffix() + suffix ==> a == b,
{
    reveal_strlit("Claire");
    reveal_strlit("James");
    reveal_strlit("Mark");
    let p = prefix + a.file_suffix() + suffix;
    let q = prefix + b.file_suffix() + suffix;
    if p == q {
        let n = prefix.len() as int;
        assert(p[n] == a.file_suffix()[0]);
        assert(q[n] == b.file_suffix()[0]);
    }
}

} // verus!
