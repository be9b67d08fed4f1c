//! Where assets are loaded from and written to in the local filesystem.
//!
//! Paths are handled with the standard library's [`std::path::Path`]: what its methods `parent`,
//! `file_name` and `join` return is named here, the extension of a path is computed here from its
//! file name, and the decisions of this module are stated over those names.
use vstd::prelude::*;

verus! {

/// What `Path::parent` returns for `path`: the path without its final component, or nothing if
/// the path ends in a root or is empty.
pub uninterp spec fn path_parent(path: Seq<char>) -> Option<Seq<char>>;

/// What `Path::file_name` returns for `path`: its final component, unless it is `..`.
pub uninterp spec fn path_file_name(path: Seq<char>) -> Option<Seq<char>>;

/// The position of the last `.` in `name`, or -1 if there is none.
pub open spec fn last_dot(name: Seq<char>) -> int
    decreases name.len(),
{
    if name.len() == 0 {
        -1
    } else if name.last() == '.' {
        name.len() - 1
    } else {
        last_dot(name.drop_last())
    }
}

/// The extension of the file name `name`: the part after its last `.`, unless it has no `.`, its
/// only `.` is its first character, or it is `..`.
pub open spec fn name_extension(name: Seq<char>) -> Option<Seq<char>> {
    if name == ".."@ || last_dot(name) <= 0 {
        None
    } else {
        Some(name.subrange(last_dot(name) + 1, name.len() as int))
    }
}

/// What `Path::extension` returns for `path`, as its documentation states it: the extension of
/// its file name, if it has one.
pub open spec fn path_extension(path: Seq<char>) -> Option<Seq<char>> {
    match path_file_name(path) {
        Some(name) => name_extension(name),
        None => None,
    }
}

/// What `Path::join` returns: `path` appended to `base`, or `path` alone if it is absolute.
pub uninterp spec fn path_join(base: Seq<char>, path: Seq<char>) -> Seq<char>;

/// Calls `std::path::Path::parent`. The contract claims that its result, as a string, is
/// `path_parent` of the path: a function of the path alone.
#[verifier::external_body]
fn parent(path: &str) -> (parent: Option<String>)
    ensures
        match parent {
            Some(p) => path_parent(path@) == Some(p@),
            None => path_parent(path@) is None,
        },
{
    match std::path::Path::new(path).parent() {
        Some(p) => Some(p.to_string_lossy().into_owned()),
        None => None,
    }
}

/// Calls `std::path::Path::file_name`. The contract claims that its result, as a string, is
/// `path_file_name` of the path: a function of the path alone.
#[verifier::external_body]
fn file_name(path: &str) -> (name: Option<String>)
    ensures
        match name {
            Some(n) => path_file_name(path@) == Some(n@),
            None => path_file_name(path@) is None,
        },
{
    match std::path::Path::new(path).file_name() {
        Some(n) => Some(n.to_string_lossy().into_owned()),
        None => None,
    }
}

/// The last `.` of `name` is at `p` (or there is none, for -1) when no `.` comes after `p`.
proof fn lemma_last_dot(name: Seq<char>, p: int)
    requires
        -1 <= p < name.len(),
        p >= 0 ==> name[p] == '.',
        forall|j: int| p < j < name.len() ==> name[j] != '.',
    ensures
        last_dot(name) == p,
    decreases name.len(),
{
    if name.len() > 0 && p < name.len() - 1 {
        lemma_last_dot(name.drop_last(), p);
    }
}

/// The extension of the file name of `path`, as `std::path::Path::extension` gives it: the part
/// of the file name after its last `.`.
fn extension(path: &str) -> (extension: Option<String>)
    ensures
        match extension {
            Some(e) => path_extension(path@) == Some(e@),
            None => path_extension(path@) is None,
        },
{
    let name = match file_name(path) {
        Some(name) => name,
        None => {
            return None;
        },
    };
    let len = name.as_str().unicode_len();
    let mut after_dot = len;
    while after_dot > 0 && name.as_str().get_char(after_dot - 1) != '.'
        invariant
            after_dot <= len,
            len == name@.len(),
            forall|j: int| after_dot <= j < len ==> name@[j] != '.',
        decreases after_dot,
    {
        after_dot = after_dot - 1;
    }
    proof {
        lemma_last_dot(name@, after_dot - 1);
    }
    if after_dot <= 1 || is(&name, "..") {
        None
    } else {
        Some(String::from_str(name.as_str().substring_char(after_dot, len)))
    }
}

/// Calls `std::path::Path::join`. The contract claims that its result, as a string, is
/// `path_join` of the two paths: a function of the two paths alone.
#[verifier::external_body]
fn join(base: &str, path: &str) -> (joined: String)
    ensures
        joined@ == path_join(base@, path@),
{
    std::path::Path::new(base).join(path).to_string_lossy().into_owned()
}

/// Whether `a` is the string `b`.
fn is(a: &String, b: &str) -> (equal: bool)
    ensures
        equal == (a@ == b@),
{
    let b = String::from_str(b);
    *a == b
}

/// The `Contents/Resources` directory of the macOS application bundle whose main executable is
/// `executable`: the executable is `<Name>.app/Contents/MacOS/<name>`.
pub open spec fn bundle_resources(executable: Seq<char>) -> Option<Seq<char>> {
    match path_parent(executable) {
        Some(macos) => match path_parent(macos) {
            Some(contents) => match path_parent(contents) {
                Some(bundle) => if path_file_name(macos) == Some("MacOS"@) && path_file_name(
                    contents,
                ) == Some("Contents"@) && path_extension(bundle) == Some("app"@) {
                    Some(path_join(contents, "Resources"@))
                } else {
                    None
                },
                None => None,
            },
            None => None,
        },
        None => None,
    }
}

/// Returns the `Contents/Resources` directory of the macOS application bundle containing
/// `executable`, if `executable` is the main executable of a bundle (`Name.app/Contents/MacOS/name`).
///
/// Apple requires the resources of an application to be stored there, and not next to the
/// executable: code signing treats every file in `Contents/MacOS` as code.
pub fn macos_bundle_resources(executable: &str) -> (resources: Option<String>)
    ensures
        match resources {
            Some(r) => bundle_resources(executable@) == Some(r@),
            None => bundle_resources(executable@) is None,
        },
{
    let macos = match parent(executable) {
        Some(p) => p,
        None => {
            return None;
        },
    };
    let contents = match parent(macos.as_str()) {
        Some(p) => p,
        None => {
            return None;
        },
    };
    let bundle = match parent(contents.as_str()) {
        Some(p) => p,
        None => {
            return None;
        },
    };
    proof {
        reveal_strlit("MacOS");
        reveal_strlit("Contents");
        reveal_strlit("app");
    }
    let is_macos = match file_name(macos.as_str()) {
        Some(name) => is(&name, "MacOS"),
        None => false,
    };
    let is_contents = match file_name(contents.as_str()) {
        Some(name) => is(&name, "Contents"),
        None => false,
    };
    let is_app = match extension(bundle.as_str()) {
        Some(extension) => is(&extension, "app"),
        None => false,
    };
    if is_macos && is_contents && is_app {
        Some(join(contents.as_str(), "Resources"))
    } else {
        None
    }
}

/// The base path of the assets directory, in order of priority:
/// - the `BEVY_ASSET_ROOT` environment variable, if it is set,
/// - the `CARGO_MANIFEST_DIR` environment variable, which is set when running with `cargo run`,
/// - on macOS, the `Contents/Resources` directory of the application bundle, if the executable
///   is the main executable of a bundle,
/// - the directory of the executable.
pub open spec fn base_path(
    asset_root: Option<Seq<char>>,
    manifest_dir: Option<Seq<char>>,
    executable: Seq<char>,
    on_macos: bool,
) -> Option<Seq<char>> {
    if asset_root is Some {
        asset_root
    } else if manifest_dir is Some {
        manifest_dir
    } else if on_macos && bundle_resources(executable) is Some {
        bundle_resources(executable)
    } else {
        path_parent(executable)
    }
}

/// The view of an optional string.
pub open spec fn optional_view(s: Option<String>) -> Option<Seq<char>> {
    match s {
        Some(s) => Some(s@),
        None => None,
    }
}

/// Chooses the base path of the assets directory (see [`base_path`]) from the values of the
/// `BEVY_ASSET_ROOT` and `CARGO_MANIFEST_DIR` environment variables and the path of the
/// executable. Returns `None` only if the executable has no parent directory.
pub fn get_base_path(
    asset_root: Option<String>,
    manifest_dir: Option<String>,
    executable: &str,
    on_macos: bool,
) -> (base: Option<String>)
    ensures
        optional_view(base) == base_path(
            optional_view(asset_root),
            optional_view(manifest_dir),
            executable@,
            on_macos,
        ),
{
    if let Some(root) = asset_root {
        return Some(root);
    }
    if let Some(dir) = manifest_dir {
        return Some(dir);
    }
    if on_macos {
        if let Some(resources) = macos_bundle_resources(executable) {
            return Some(resources);
        }
    }
    parent(executable)
}

/// I/O implementation for the local filesystem.
pub struct FileAssetReader {
    root_path: String,
}

impl FileAssetReader {
    /// The root directory where assets are loaded from.
    pub closed spec fn spec_root_path(&self) -> Seq<char> {
        self.root_path@
    }

    /// Creates a new reader at `path` relative to the base path of the assets directory, which is
    /// normally the executable's parent directory (see [`FileAssetReader::get_base_path`]).
    pub fn new(base_path: &str, path: &str) -> (reader: Self)
        ensures
            reader.spec_root_path() == path_join(base_path@, path@),
    {
        FileAssetReader { root_path: join(base_path, path) }
    }

    /// Returns the base path of the assets directory, which is normally the executable's parent
    /// directory (see [`base_path`]).
    pub fn get_base_path(
        asset_root: Option<String>,
        manifest_dir: Option<String>,
        executable: &str,
        on_macos: bool,
    ) -> (base: Option<String>)
        ensures
            optional_view(base) == base_path(
                optional_view(asset_root),
                optional_view(manifest_dir),
                executable@,
                on_macos,
            ),
    {
        get_base_path(asset_root, manifest_dir, executable, on_macos)
    }

    /// Returns the root directory where assets are loaded from.
    pub fn root_path(&self) -> (root: &String)
        ensures
            root@ == self.spec_root_path(),
    {
        &self.root_path
    }
}

/// A writer for the local filesystem.
pub struct FileAssetWriter {
    root_path: String,
}

impl FileAssetWriter {
    /// The root directory where assets are written to.
    pub closed spec fn spec_root_path(&self) -> Seq<char> {
        self.root_path@
    }

    /// Creates a new writer at `path` relative to the base path of the assets directory.
    pub fn new(base_path: &str, path: &str) -> (writer: Self)
        ensures
            writer.spec_root_path() == path_join(base_path@, path@),
    {
        FileAssetWriter { root_path: join(base_path, path) }
    }

    /// Returns the root directory where assets are written to.
    pub fn root_path(&self) -> (root: &String)
        ensures
            root@ == self.spec_root_path(),
    {
        &self.root_path
    }
}

} // verus!
