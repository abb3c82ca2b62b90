//! Packing: moving existing files into a package, at the package paths that
//! install them back where they were.
use crate::package::{
    apply_steps, deployment_name, deployment_spec, entries_view, is_current_spec, join_names,
    map_backup_spec, nearest_path_target, nearest_spec, render_template, rendered_spec,
    reverse_backup_path, skipped_view, strings_view, target_is_current_entry, up_to_date,
    validate_package_name, valid_package_name, ApplyReport, EntryKind, EntryObservation,
    EntryView, FileKind, PackageError, PackagePlan, PkgErr, SkippedEntry,
};
use crate::path::{
    comps_view, components, file_name, is_absolute, join, path_components, path_eq, path_equal,
    path_file_name, path_is_absolute, path_join, path_lt, path_order, render, render_components,
    strip_prefix, Comp, Component,
};
use crate::text::{cat, chars_of, io_error_text, join_texts, joined, str_equal, to_string, Order};
use crate::values::Values;
use vstd::prelude::*;

verus! {

/// A file to pack: where it is, the package file it becomes, the target that
/// installs it back, and whether that package file exists already.
#[derive(Debug, Clone, PartialEq, Eq)]
pub struct PackEntry {
    pub source: String,
    pub package_path: String,
    pub target: String,
    pub conflicts: bool,
}

/// The files to pack into a package.
#[derive(Debug, PartialEq, Eq)]
pub struct PackPlan {
    pub name: String,
    pub package_root: String,
    pub entries: Vec<PackEntry>,
}

/// What packing did.
#[derive(Debug, PartialEq, Eq)]
pub struct PackReport {
    pub packed: Vec<PackEntry>,
    pub skipped: Vec<SkippedEntry>,
}

/// A packing failure.
#[derive(Debug)]
#[allow(inconsistent_fields)]
pub enum PackError {
    Package(PackageError),
    CurrentDirectory(std::io::Error),
    NoInput,
    NoFiles,
    ReadDirectory { path: String, source: std::io::Error },
    ReadMetadata { path: String, source: std::io::Error },
    SymbolicLink { path: String },
    UnsupportedFileType { path: String },
    InputContainsPackage { input: String, package: String },
    NoPathParent { path: String },
    InvalidPathName(String),
    UnrepresentablePath(String),
    TargetCollision { first: String, second: String, package_path: String },
    DestinationParentNotDirectory { path: String },
    InvalidDestinationType { path: String },
    InvalidPackageRoot(String),
    CreateDirectory { path: String, source: std::io::Error },
    CreateTransactionDirectory,
    CopyFile { source_path: String, destination: String, source: std::io::Error },
    MoveFile { source_path: String, destination: String, source: std::io::Error },
    ReadSource { path: String, source: std::io::Error },
    SourceChanged(String),
    RemoveSource { path: String, source: std::io::Error },
    MappingMismatch { source: String, package_path: String },
    InstallSkipped { paths: Vec<String> },
    CleanupTransaction { path: String, source: std::io::Error },
    Rollback { operation: String, failures: Vec<String> },
}

/// A packing failure, as characters; for a failed file-system call, the
/// paths it names (the system's error itself is left out).
pub enum PackErr {
    Package(PkgErr),
    NoInput,
    NoFiles,
    SymbolicLink { path: Seq<char> },
    UnsupportedFileType { path: Seq<char> },
    InputContainsPackage { input: Seq<char>, package: Seq<char> },
    NoPathParent { path: Seq<char> },
    InvalidPathName(Seq<char>),
    UnrepresentablePath(Seq<char>),
    TargetCollision { first: Seq<char>, second: Seq<char>, package_path: Seq<char> },
    InvalidPackageRoot(Seq<char>),
    CreateTransactionDirectory,
    DestinationParentNotDirectory { path: Seq<char> },
    InvalidDestinationType { path: Seq<char> },
    SourceChanged(Seq<char>),
    MappingMismatch { source: Seq<char>, package_path: Seq<char> },
    InstallSkipped { paths: Seq<Seq<char>> },
    Rollback { operation: Seq<char>, failures: Seq<Seq<char>> },
    CurrentDirectory,
    ReadDirectory { path: Seq<char> },
    ReadMetadata { path: Seq<char> },
    CreateDirectory { path: Seq<char> },
    CopyFile { source: Seq<char>, destination: Seq<char> },
    MoveFile { source: Seq<char>, destination: Seq<char> },
    ReadSource { path: Seq<char> },
    RemoveSource { path: Seq<char> },
    CleanupTransaction { path: Seq<char> },
}

impl PackError {
    pub open spec fn kind(&self) -> PackErr {
        match self {
            PackError::Package(e) => PackErr::Package(e.kind()),
            PackError::NoInput => PackErr::NoInput,
            PackError::NoFiles => PackErr::NoFiles,
            PackError::SymbolicLink { path } => PackErr::SymbolicLink { path: path@ },
            PackError::UnsupportedFileType { path } => PackErr::UnsupportedFileType { path: path@ },
            PackError::InputContainsPackage { input, package } => PackErr::InputContainsPackage {
                input: input@,
                package: package@,
            },
            PackError::NoPathParent { path } => PackErr::NoPathParent { path: path@ },
            PackError::InvalidPathName(n) => PackErr::InvalidPathName(n@),
            PackError::UnrepresentablePath(p) => PackErr::UnrepresentablePath(p@),
            PackError::TargetCollision { first, second, package_path } => PackErr::TargetCollision {
                first: first@,
                second: second@,
                package_path: package_path@,
            },
            PackError::InvalidPackageRoot(p) => PackErr::InvalidPackageRoot(p@),
            PackError::CreateTransactionDirectory => PackErr::CreateTransactionDirectory,
            PackError::DestinationParentNotDirectory { path } => PackErr::DestinationParentNotDirectory {
                path: path@,
            },
            PackError::InvalidDestinationType { path } => PackErr::InvalidDestinationType { path: path@ },
            PackError::SourceChanged(p) => PackErr::SourceChanged(p@),
            PackError::MappingMismatch { source, package_path } => PackErr::MappingMismatch {
                source: source@,
                package_path: package_path@,
            },
            PackError::InstallSkipped { paths } => PackErr::InstallSkipped { paths: strings_view(paths@) },
            PackError::Rollback { operation, failures } => PackErr::Rollback {
                operation: operation@,
                failures: strings_view(failures@),
            },
            PackError::CurrentDirectory(_) => PackErr::CurrentDirectory,
            PackError::ReadDirectory { path, .. } => PackErr::ReadDirectory { path: path@ },
            PackError::ReadMetadata { path, .. } => PackErr::ReadMetadata { path: path@ },
            PackError::CreateDirectory { path, .. } => PackErr::CreateDirectory { path: path@ },
            PackError::CopyFile { source_path, destination, .. } => PackErr::CopyFile {
                source: source_path@,
                destination: destination@,
            },
            PackError::MoveFile { source_path, destination, .. } => PackErr::MoveFile {
                source: source_path@,
                destination: destination@,
            },
            PackError::ReadSource { path, .. } => PackErr::ReadSource { path: path@ },
            PackError::RemoveSource { path, .. } => PackErr::RemoveSource { path: path@ },
            PackError::CleanupTransaction { path, .. } => PackErr::CleanupTransaction { path: path@ },
        }
    }
}

/// A failure of a file-system call, whose message ends with the system's
/// wording of the error after the text of `pack_message_spec`.
pub open spec fn pack_system_worded(k: PackErr) -> bool {
    match k {
        PackErr::Package(e) => crate::package::system_worded(e),
        PackErr::CurrentDirectory => true,
        PackErr::ReadDirectory { .. } => true,
        PackErr::ReadMetadata { .. } => true,
        PackErr::CreateDirectory { .. } => true,
        PackErr::CopyFile { .. } => true,
        PackErr::MoveFile { .. } => true,
        PackErr::ReadSource { .. } => true,
        PackErr::RemoveSource { .. } => true,
        PackErr::CleanupTransaction { .. } => true,
        _ => false,
    }
}

/// The text that reports a failure the packing rules decide.
pub open spec fn pack_message_spec(k: PackErr) -> Seq<char> {
    match k {
        PackErr::Package(e) => crate::package::package_message_spec(e),
        PackErr::NoInput => "pack requires at least one file or directory"@,
        PackErr::NoFiles => "no files were selected for packing"@,
        PackErr::CreateTransactionDirectory => "could not allocate a temporary pack directory"@,
        PackErr::SymbolicLink { path } => "symbolic links cannot be packed: "@ + path,
        PackErr::UnsupportedFileType { path } => "unsupported file type cannot be packed: "@ + path,
        PackErr::InputContainsPackage { input, package } => "input "@ + input + " contains package destination "@ + package,
        PackErr::NoPathParent { path } => "no configured path is a parent of "@ + path,
        PackErr::TargetCollision { first, second, package_path } => first + " and "@ + second + " both map to package file "@ + package_path,
        PackErr::DestinationParentNotDirectory { path } => "package destination parent is not a directory: "@ + path,
        PackErr::InvalidDestinationType { path } => "package destination is not a regular file: "@ + path,
        PackErr::MappingMismatch { source, package_path } => "package file "@ + package_path + " does not map back to source "@ + source,
        PackErr::InvalidPathName(p) => "path name cannot be used as a package directory: "@ + p,
        PackErr::UnrepresentablePath(p) => "path cannot be represented losslessly by package naming rules: "@ + p,
        PackErr::InvalidPackageRoot(p) => "invalid package root: "@ + p,
        PackErr::SourceChanged(p) => "source changed while it was being packed: "@ + p,
        PackErr::InstallSkipped { paths } => "stow skipped newly packed targets: "@ + joined(paths, ", "@),
        PackErr::Rollback { operation, failures } => operation + "; rollback also failed: "@ + joined(failures, "; "@),
        PackErr::CurrentDirectory => "could not read current directory: "@,
        PackErr::ReadDirectory { path } => "could not read directory "@ + path + ": "@,
        PackErr::ReadMetadata { path } => "could not inspect "@ + path + ": "@,
        PackErr::CreateDirectory { path } => "could not create directory "@ + path + ": "@,
        PackErr::CopyFile { source, destination } => "could not copy "@ + source + " to "@ + destination + ": "@,
        PackErr::MoveFile { source, destination } => "could not move "@ + source + " to "@ + destination + ": "@,
        PackErr::ReadSource { path } => "could not verify source "@ + path + " after copying: "@,
        PackErr::RemoveSource { path } => "could not remove packed source "@ + path + ": "@,
        PackErr::CleanupTransaction { path } => "pack succeeded but temporary directory "@ + path + " could not be removed: "@,
    }
}

impl PackError {
    /// The text that reports the failure; for a failed file-system call it
    /// ends with the system's wording of the error.
    pub fn message(&self) -> (res: String)
        ensures
            pack_message_spec(self.kind()).is_prefix_of(res@),
            !pack_system_worded(self.kind()) ==> res@ == pack_message_spec(self.kind()),
    {
        let res = match self {
            PackError::Package(e) => e.message(),
            PackError::NoInput => to_string("pack requires at least one file or directory"),
            PackError::NoFiles => to_string("no files were selected for packing"),
            PackError::CreateTransactionDirectory => to_string("could not allocate a temporary pack directory"),
            PackError::SymbolicLink { path } => cat(to_string("symbolic links cannot be packed: "), path.as_str()),
            PackError::UnsupportedFileType { path } => cat(to_string("unsupported file type cannot be packed: "), path.as_str()),
            PackError::InputContainsPackage { input, package } => cat(cat(cat(to_string("input "), input.as_str()), " contains package destination "), package.as_str()),
            PackError::NoPathParent { path } => cat(to_string("no configured path is a parent of "), path.as_str()),
            PackError::TargetCollision { first, second, package_path } => cat(cat(cat(cat(to_string(first.as_str()), " and "), second.as_str()), " both map to package file "), package_path.as_str()),
            PackError::DestinationParentNotDirectory { path } => cat(to_string("package destination parent is not a directory: "), path.as_str()),
            PackError::InvalidDestinationType { path } => cat(to_string("package destination is not a regular file: "), path.as_str()),
            PackError::MappingMismatch { source, package_path } => cat(cat(cat(to_string("package file "), package_path.as_str()), " does not map back to source "), source.as_str()),
            PackError::InvalidPathName(p) => cat(to_string("path name cannot be used as a package directory: "), p.as_str()),
            PackError::UnrepresentablePath(p) => cat(to_string("path cannot be represented losslessly by package naming rules: "), p.as_str()),
            PackError::InvalidPackageRoot(p) => cat(to_string("invalid package root: "), p.as_str()),
            PackError::SourceChanged(p) => cat(to_string("source changed while it was being packed: "), p.as_str()),
            PackError::InstallSkipped { paths } => cat(to_string("stow skipped newly packed targets: "), join_texts(paths, ", ").as_str()),
            PackError::Rollback { operation, failures } => cat(cat(to_string(operation.as_str()), "; rollback also failed: "), join_texts(failures, "; ").as_str()),
            PackError::ReadDirectory { path, source } => cat(cat(cat(to_string("could not read directory "), path.as_str()), ": "), io_error_text(source).as_str()),
            PackError::ReadMetadata { path, source } => cat(cat(cat(to_string("could not inspect "), path.as_str()), ": "), io_error_text(source).as_str()),
            PackError::CreateDirectory { path, source } => cat(cat(cat(to_string("could not create directory "), path.as_str()), ": "), io_error_text(source).as_str()),
            PackError::ReadSource { path, source } => cat(cat(cat(to_string("could not verify source "), path.as_str()), " after copying: "), io_error_text(source).as_str()),
            PackError::RemoveSource { path, source } => cat(cat(cat(to_string("could not remove packed source "), path.as_str()), ": "), io_error_text(source).as_str()),
            PackError::CurrentDirectory(error) => cat(to_string("could not read current directory: "), io_error_text(error).as_str()),
            PackError::CopyFile { source_path, destination, source } => cat(cat(cat(cat(cat(to_string("could not copy "), source_path.as_str()), " to "), destination.as_str()), ": "), io_error_text(source).as_str()),
            PackError::MoveFile { source_path, destination, source } => cat(cat(cat(cat(cat(to_string("could not move "), source_path.as_str()), " to "), destination.as_str()), ": "), io_error_text(source).as_str()),
            PackError::CleanupTransaction { path, source } => cat(cat(cat(to_string("pack succeeded but temporary directory "), path.as_str()), " could not be removed: "), io_error_text(source).as_str()),
        };
        proof {
            let head = pack_message_spec(self.kind());
            assert(head =~= res@.take(head.len() as int));
        }
        res
    }
}

pub struct PackEntryView {
    pub source: Seq<char>,
    pub package_path: Seq<char>,
    pub target: Seq<char>,
    pub conflicts: bool,
}

impl View for PackEntry {
    type V = PackEntryView;

    open spec fn view(&self) -> PackEntryView {
        PackEntryView {
            source: self.source@,
            package_path: self.package_path@,
            target: self.target@,
            conflicts: self.conflicts,
        }
    }
}

pub open spec fn pack_entries_view(v: Seq<PackEntry>) -> Seq<PackEntryView> {
    v.map_values(|e: PackEntry| e@)
}

impl PackEntry {
    /// A copy of the entry.
    pub fn copy(&self) -> (res: PackEntry)
        ensures
            res@ == self@,
    {
        PackEntry {
            source: self.source.clone(),
            package_path: self.package_path.clone(),
            target: self.target.clone(),
            conflicts: self.conflicts,
        }
    }
}

// ---------------------------------------------------------------------------
// Inputs.
// ---------------------------------------------------------------------------
/// The names of the directories that a recursive input passes over:
/// version control and dependency or build directories.
pub open spec fn ignored_names() -> Seq<Seq<char>> {
    seq![
        ".git"@,
        ".next"@,
        ".venv"@,
        "__pycache__"@,
        "build"@,
        "coverage"@,
        "dist"@,
        "node_modules"@,
        "target"@,
        "venv"@,
    ]
}

/// A directory that a recursive input passes over, by its name.
pub open spec fn is_ignored_spec(path: Seq<char>) -> bool {
    match file_name(path) {
        Some(n) => ignored_names().contains(n),
        None => false,
    }
}

/// Whether a recursive input passes over the directory `path`.
pub fn is_ignored_directory(path: &str) -> (res: bool)
    ensures
        res == is_ignored_spec(path@),
{
    let name = match path_file_name(path) {
        Some(n) => n,
        None => {
            return false;
        },
    };
    let ghost names = ignored_names();
    let candidates: [&str; 10] = [
        ".git",
        ".next",
        ".venv",
        "__pycache__",
        "build",
        "coverage",
        "dist",
        "node_modules",
        "target",
        "venv",
    ];
    let mut i: usize = 0;
    while i < 10
        invariant
            i <= 10,
            names == ignored_names(),
            file_name(path@) == Some(name@),
            forall|j: int| 0 <= j < i ==> names[j] != name@,
            candidates@ == seq![
                ".git",
                ".next",
                ".venv",
                "__pycache__",
                "build",
                "coverage",
                "dist",
                "node_modules",
                "target",
                "venv",
            ],
        decreases 10 - i,
    {
        if str_equal(name.as_str(), candidates[i]) {
            assert(names[i as int] == candidates@[i as int]@);
            assert(names[i as int] == name@);
            assert(names.contains(name@));
            return true;
        }
        assert(names[i as int] == candidates@[i as int]@);
        i += 1;
    }
    false
}

/// What to do with a path met while gathering the files to pack.
#[derive(Debug, Clone, Copy, PartialEq, Eq, Structural)]
pub enum InputAction {
    Skip,
    AddFile,
    Descend,
}

/// The packing rules for a path met while gathering inputs: a path inside the
/// packages directory is refused when given and passed over when met; links
/// and special files are refused; an ignored directory is passed over
/// unless given.
pub open spec fn input_action_spec(
    path: Seq<char>,
    explicit: bool,
    canonical_path: Seq<char>,
    canonical_pkgs_dir: Seq<char>,
    pkgs_dir: Seq<char>,
    kind: FileKind,
) -> Result<InputAction, PackErr> {
    if crate::path::path_starts_with(canonical_path, canonical_pkgs_dir) {
        if explicit {
            Err(PackErr::InputContainsPackage { input: path, package: pkgs_dir })
        } else {
            Ok(InputAction::Skip)
        }
    } else {
        match kind {
            FileKind::Symlink => Err(PackErr::SymbolicLink { path }),
            FileKind::File => Ok(InputAction::AddFile),
            FileKind::Other => Err(PackErr::UnsupportedFileType { path }),
            FileKind::Directory => if !explicit && is_ignored_spec(path) {
                Ok(InputAction::Skip)
            } else {
                Ok(InputAction::Descend)
            },
        }
    }
}

/// Decides what to do with `path` (given on the command line when
/// `explicit`), of kind `kind`; `canonical_path` and `canonical_pkgs_dir`
/// are the resolved path and packages directory.
pub fn input_action(
    path: &str,
    explicit: bool,
    canonical_path: &str,
    canonical_pkgs_dir: &str,
    pkgs_dir: &str,
    kind: FileKind,
) -> (res: Result<InputAction, PackError>)
    ensures
        match input_action_spec(path@, explicit, canonical_path@, canonical_pkgs_dir@, pkgs_dir@, kind) {
            Ok(a) => res == Ok::<InputAction, PackError>(a),
            Err(e) => res matches Err(x) && x.kind() == e,
        },
{
    if crate::path::path_starts_with_exec(canonical_path, canonical_pkgs_dir) {
        if explicit {
            return Err(
                PackError::InputContainsPackage {
                    input: crate::text::to_string(path),
                    package: crate::text::to_string(pkgs_dir),
                },
            );
        }
        return Ok(InputAction::Skip);
    }
    match kind {
        FileKind::Symlink => Err(PackError::SymbolicLink { path: crate::text::to_string(path) }),
        FileKind::File => Ok(InputAction::AddFile),
        FileKind::Other => Err(PackError::UnsupportedFileType { path: crate::text::to_string(path) }),
        FileKind::Directory => {
            if !explicit && is_ignored_directory(path) {
                Ok(InputAction::Skip)
            } else {
                Ok(InputAction::Descend)
            }
        },
    }
}

/// The components of `cs` with `.` dropped and `..` removing the component
/// before it (the root stays).
pub open spec fn normalize_comps(cs: Seq<Comp>) -> Seq<Comp>
    decreases cs.len(),
{
    if cs.len() == 0 {
        cs
    } else {
        let acc = normalize_comps(cs.drop_last());
        match cs.last() {
            Comp::Cur => acc,
            Comp::Parent => if acc.len() == 0 || (acc.len() == 1 && acc[0] == Comp::Root) {
                acc
            } else {
                acc.drop_last()
            },
            c => acc.push(c),
        }
    }
}

/// `path` made absolute against `current_dir` and normalized.
pub open spec fn absolute_spec(path: Seq<char>, current_dir: Seq<char>) -> Seq<char> {
    let full = if is_absolute(path) {
        path
    } else {
        join(current_dir, path)
    };
    render(normalize_comps(components(full)))
}

/// `path` made absolute against `current_dir`, without `.` and `..`.
pub fn absolute_path(path: &str, current_dir: &str) -> (res: String)
    ensures
        res@ == absolute_spec(path@, current_dir@),
{
    let full = if path_is_absolute(path) {
        crate::text::to_string(path)
    } else {
        path_join(current_dir, path)
    };
    let parts = path_components(full.as_str());
    let ghost cs = comps_view(parts@);
    let mut acc: Vec<Component> = Vec::new();
    let mut i: usize = 0;
    assert(cs.take(0) =~= Seq::<Comp>::empty());
    assert(comps_view(acc@) =~= Seq::<Comp>::empty());
    while i < parts.len()
        invariant
            i <= parts@.len(),
            cs == comps_view(parts@),
            comps_view(acc@) == normalize_comps(cs.take(i as int)),
        decreases parts@.len() - i,
    {
        assert(cs.take(i + 1).drop_last() =~= cs.take(i as int));
        assert(cs.take(i + 1).last() == parts@[i as int].view());
        let ghost before = comps_view(acc@);
        match &parts[i] {
            Component::CurDir => {},
            Component::ParentDir => {
                let n = acc.len();
                let keep = n == 0 || (n == 1 && match &acc[0] {
                    Component::RootDir => true,
                    _ => false,
                });
                if !keep {
                    acc.pop();
                    assert(comps_view(acc@) =~= before.drop_last());
                }
            },
            Component::RootDir => {
                acc.push(Component::RootDir);
                assert(comps_view(acc@) =~= before.push(Comp::Root));
            },
            Component::Normal(name) => {
                acc.push(Component::Normal(name.clone()));
                assert(comps_view(acc@) =~= before.push(parts@[i as int].view()));
            },
        }
        i += 1;
    }
    assert(cs.take(i as int) =~= cs);
    assert(comps_view(acc@).skip(0) =~= comps_view(acc@));
    render_components(acc.as_slice(), 0)
}

// ---------------------------------------------------------------------------
// Package paths.
// ---------------------------------------------------------------------------
/// A configured path's name can name a directory of a package: one ordinary
/// component, not the metadata directory `.dtm`.
pub open spec fn valid_path_name(name: Seq<char>) -> bool {
    name != crate::package::metadata_name() && components(name).len() == 1 && components(name)[0] is Normal
}

/// Accepts a configured path's name as a package directory.
pub fn validate_path_name(name: &str) -> (res: Result<(), PackError>)
    ensures
        valid_path_name(name@) <==> (res is Ok),
        res matches Err(e) ==> e.kind() == PackErr::InvalidPathName(name@),
{
    let metadata = crate::text::str_equal(name, ".dtm");
    proof {
        reveal_strlit(".dtm");
        assert(".dtm"@ =~= crate::package::metadata_name());
    }
    let parts = path_components(name);
    let normal = parts.len() == 1 && match &parts[0] {
        Component::Normal(_) => true,
        _ => false,
    };
    proof {
        if parts@.len() == 1 {
            assert(comps_view(parts@)[0] == parts@[0].view());
        }
    }
    if !metadata && normal {
        Ok(())
    } else {
        Err(PackError::InvalidPathName(crate::text::to_string(name)))
    }
}

/// The package path `mapped` installs back to `original`: each of its
/// components is an ordinary name that deploys as a link, and the deployed
/// names give `original` again.
pub open spec fn round_trips(original: Seq<char>, mapped: Seq<char>) -> bool {
    let cs = components(mapped);
    &&& forall|i: int| 0 <= i < cs.len() ==> (#[trigger] cs[i]) is Normal
    &&& forall|i: int|
        0 <= i < cs.len() ==> deployment_spec(#[trigger] cs[i]->Normal_0).0 == EntryKind::Symlink
    &&& path_eq(
        join_names(Seq::empty(), cs.map_values(|c: Comp| deployment_spec(c->Normal_0).1)),
        original,
    )
}

/// Refuses a package path that does not install back to the original path.
pub fn ensure_pack_path_round_trip(original: &str, mapped: &str) -> (res: Result<(), PackError>)
    ensures
        round_trips(original@, mapped@) <==> (res is Ok),
        res matches Err(e) ==> e.kind() == PackErr::UnrepresentablePath(original@),
{
    let parts = path_components(mapped);
    let ghost cs = components(mapped@);
    let ghost names = cs.map_values(|c: Comp| deployment_spec(c->Normal_0).1);
    let mut restored = String::new();
    let mut i: usize = 0;
    assert(names.take(0) =~= Seq::<Seq<char>>::empty());
    while i < parts.len()
        invariant
            i <= parts@.len(),
            cs == comps_view(parts@),
            cs == components(mapped@),
            names == cs.map_values(|c: Comp| deployment_spec(c->Normal_0).1),
            forall|j: int| 0 <= j < i ==> (#[trigger] cs[j]) is Normal,
            forall|j: int| 0 <= j < i ==> deployment_spec(#[trigger] cs[j]->Normal_0).0 == EntryKind::Symlink,
            restored@ == join_names(Seq::empty(), names.take(i as int)),
        decreases parts@.len() - i,
    {
        assert(cs[i as int] == parts@[i as int].view());
        let name = match &parts[i] {
            Component::Normal(n) => n,
            _ => {
                return Err(PackError::UnrepresentablePath(crate::text::to_string(original)));
            },
        };
        let (kind, deployed) = match deployment_name(name.as_str()) {
            Some(r) => r,
            None => {
                return Err(PackError::UnrepresentablePath(crate::text::to_string(original)));
            },
        };
        if kind != EntryKind::Symlink {
            return Err(PackError::UnrepresentablePath(crate::text::to_string(original)));
        }
        restored = path_join(restored.as_str(), deployed.as_str());
        assert(names.take(i + 1).drop_last() =~= names.take(i as int));
        i += 1;
    }
    assert(names.take(i as int) =~= names);
    if !path_equal(restored.as_str(), original) {
        return Err(PackError::UnrepresentablePath(crate::text::to_string(original)));
    }
    Ok(())
}

/// Where a file is packed: below the package root, the nearest configured
/// path's name, then its path below that path with `.x` names written
/// `dot-x`; the path must install back to the file.
pub open spec fn package_path_spec(
    package_root: Seq<char>,
    source: Seq<char>,
    m: Map<Seq<char>, Seq<char>>,
) -> Result<Seq<char>, PackErr> {
    match nearest_spec(source, m) {
        None => Err(PackErr::NoPathParent { path: source }),
        Some((name, relative)) => if !valid_path_name(name) {
            Err(PackErr::InvalidPathName(name))
        } else {
            match map_backup_spec(relative, true) {
                None => Err(PackErr::Package(PkgErr::InvalidBackupTarget { path: relative })),
                Some(mapped) => if !round_trips(relative, mapped) {
                    Err(PackErr::UnrepresentablePath(relative))
                } else {
                    Ok(join(join(package_root, name), mapped))
                },
            }
        },
    }
}

/// The package path of `source`.
pub fn package_path(package_root: &str, source: &str, paths: &Values) -> (res: Result<String, PackError>)
    ensures
        match package_path_spec(package_root@, source@, paths.map()) {
            Ok(p) => res matches Ok(x) && x@ == p,
            Err(e) => res matches Err(x) && x.kind() == e,
        },
{
    let (name, relative) = match nearest_path_target(source, paths) {
        Some(r) => r,
        None => {
            return Err(PackError::NoPathParent { path: crate::text::to_string(source) });
        },
    };
    validate_path_name(name.as_str())?;
    let mapped = match reverse_backup_path(relative.as_str()) {
        Ok(m) => m,
        Err(e) => {
            return Err(PackError::Package(e));
        },
    };
    ensure_pack_path_round_trip(relative.as_str(), mapped.as_str())?;
    let root = path_join(package_root, name.as_str());
    Ok(path_join(root.as_str(), mapped.as_str()))
}

/// The files to pack, each once (by path), in path order: `x` is added to
/// the ordered set `s`.
pub open spec fn insert_path(s: Seq<Seq<char>>, x: Seq<char>) -> Seq<Seq<char>> {
    if exists|i: int| 0 <= i < s.len() && path_eq(#[trigger] s[i], x) {
        s
    } else {
        s.insert(first_path_after(s, x, 0), x)
    }
}

pub open spec fn first_path_after(s: Seq<Seq<char>>, x: Seq<char>, i: int) -> int
    decreases s.len() - i,
{
    if i < 0 || i >= s.len() {
        s.len() as int
    } else if path_lt(x, s[i]) {
        i
    } else {
        first_path_after(s, x, i + 1)
    }
}

/// The set of the paths, in path order (`BTreeSet<PathBuf>`).
pub open spec fn path_set(s: Seq<Seq<char>>) -> Seq<Seq<char>>
    decreases s.len(),
{
    if s.len() == 0 {
        s
    } else {
        insert_path(path_set(s.drop_last()), s.last())
    }
}

/// The gathered files, each once, in path order.
pub fn ordered_sources(sources: &Vec<String>) -> (res: Vec<String>)
    ensures
        strings_view(res@) == path_set(strings_view(sources@)),
{
    let ghost input = strings_view(sources@);
    let mut set: Vec<String> = Vec::new();
    let mut i: usize = 0;
    assert(input.take(0) =~= Seq::<Seq<char>>::empty());
    assert(strings_view(set@) =~= Seq::<Seq<char>>::empty());
    while i < sources.len()
        invariant
            i <= sources@.len(),
            input == strings_view(sources@),
            strings_view(set@) == path_set(input.take(i as int)),
        decreases sources@.len() - i,
    {
        let x = sources[i].clone();
        let ghost before = strings_view(set@);
        proof {
            assert(input.take(i + 1).drop_last() =~= input.take(i as int));
            assert(input.take(i + 1).last() == x@);
        }
        let mut present = false;
        let mut j: usize = 0;
        while j < set.len()
            invariant
                j <= set@.len(),
                before == strings_view(set@),
                present == exists|q: int| 0 <= q < j && path_eq(#[trigger] before[q], x@),
            decreases set@.len() - j,
        {
            let same = path_equal(set[j].as_str(), x.as_str());
            proof {
                assert(before[j as int] == set@[j as int]@);
                if !present && !same {
                    assert forall|q: int| 0 <= q < j + 1 implies !path_eq(#[trigger] before[q], x@) by {
                        if q < j {
                            assert(!(exists|r: int| 0 <= r < j && path_eq(#[trigger] before[r], x@)));
                        }
                    }
                }
            }
            if same {
                present = true;
            }
            j += 1;
        }
        if !present {
            let mut k: usize = 0;
            while k < set.len() && path_order(x.as_str(), set[k].as_str()) != Order::Less
                invariant
                    k <= set@.len(),
                    before == strings_view(set@),
                    first_path_after(before, x@, 0) == first_path_after(before, x@, k as int),
                decreases set@.len() - k,
            {
                k += 1;
            }
            set.insert(k, x);
            assert(strings_view(set@) =~= before.insert(k as int, x@));
        }
        i += 1;
    }
    assert(input.take(i as int) =~= input);
    set
}

/// The first file at or after `j` packed at `p`.
pub open spec fn first_packed_at(acc: Seq<(Seq<char>, Seq<char>)>, p: Seq<char>, j: int) -> Option<int>
    decreases acc.len() - j,
{
    if j < 0 || j >= acc.len() {
        None
    } else if path_eq(acc[j].1, p) {
        Some(j)
    } else {
        first_packed_at(acc, p, j + 1)
    }
}

/// The package paths of the files from `i`, in order; two files with one
/// package path are refused (the first earlier one is named).
pub open spec fn pack_paths_spec(
    package_root: Seq<char>,
    sources: Seq<Seq<char>>,
    m: Map<Seq<char>, Seq<char>>,
    i: int,
    acc: Seq<(Seq<char>, Seq<char>)>,
) -> Result<Seq<(Seq<char>, Seq<char>)>, PackErr>
    decreases sources.len() - i,
{
    if i < 0 || i >= sources.len() {
        Ok(acc)
    } else {
        match package_path_spec(package_root, sources[i], m) {
            Err(e) => Err(e),
            Ok(p) => match first_packed_at(acc, p, 0) {
                Some(j) => Err(
                    PackErr::TargetCollision { first: acc[j].0, second: sources[i], package_path: p },
                ),
                None => pack_paths_spec(package_root, sources, m, i + 1, acc.push((sources[i], p))),
            },
        }
    }
}

pub open spec fn pairs_view(v: Seq<(String, String)>) -> Seq<(Seq<char>, Seq<char>)> {
    v.map_values(|p: (String, String)| (p.0@, p.1@))
}

/// The package path of each file, in order.
#[verifier::loop_isolation(false)]
pub fn pack_paths(package_root: &str, sources: &Vec<String>, paths: &Values) -> (res: Result<
    Vec<(String, String)>,
    PackError,
>)
    ensures
        match pack_paths_spec(package_root@, strings_view(sources@), paths.map(), 0, Seq::empty()) {
            Ok(v) => res matches Ok(x) && pairs_view(x@) == v,
            Err(e) => res matches Err(x) && x.kind() == e,
        },
{
    let ghost sv = strings_view(sources@);
    let ghost whole = pack_paths_spec(package_root@, sv, paths.map(), 0, Seq::empty());
    let mut out: Vec<(String, String)> = Vec::new();
    let mut i: usize = 0;
    assert(pairs_view(out@) =~= Seq::<(Seq<char>, Seq<char>)>::empty());
    while i < sources.len()
        invariant
            i <= sv.len(),
            whole == pack_paths_spec(package_root@, sv, paths.map(), i as int, pairs_view(out@)),
        decreases sv.len() - i,
    {
        let source = &sources[i];
        let p = package_path(package_root, source.as_str(), paths)?;
        let ghost acc = pairs_view(out@);
        let mut j: usize = 0;
        while j < out.len()
            invariant
                j <= out@.len(),
                acc == pairs_view(out@),
                first_packed_at(acc, p@, 0) == first_packed_at(acc, p@, j as int),
            decreases out@.len() - j,
        {
            assert(acc[j as int].1 == out@[j as int].1@);
            if path_equal(out[j].1.as_str(), p.as_str()) {
                assert(acc[j as int].0 == out@[j as int].0@);
                return Err(
                    PackError::TargetCollision {
                        first: out[j].0.clone(),
                        second: source.clone(),
                        package_path: p,
                    },
                );
            }
            j += 1;
        }
        let ghost before = pairs_view(out@);
        out.push((source.clone(), p));
        assert(pairs_view(out@) =~= before.push((sv[i as int], p@)));
        i += 1;
    }
    Ok(out)
}

// ---------------------------------------------------------------------------
// The plan.
// ---------------------------------------------------------------------------
pub open spec fn first_pack_after(s: Seq<PackEntryView>, p: Seq<char>, i: int) -> int
    decreases s.len() - i,
{
    if i < 0 || i >= s.len() {
        s.len() as int
    } else if path_lt(p, s[i].package_path) {
        i
    } else {
        first_pack_after(s, p, i + 1)
    }
}

/// The entries ordered by package path, equal ones keeping their order.
pub open spec fn sort_by_package_path(s: Seq<PackEntryView>) -> Seq<PackEntryView>
    decreases s.len(),
{
    if s.len() == 0 {
        s
    } else {
        let sorted = sort_by_package_path(s.drop_last());
        sorted.insert(first_pack_after(sorted, s.last().package_path, 0), s.last())
    }
}

/// The entries for the files and their package paths; a file is its own
/// target, and `conflicts[i]` tells whether the `i`th package file exists.
pub open spec fn pack_entries_spec(mapped: Seq<(Seq<char>, Seq<char>)>, conflicts: Seq<bool>) -> Seq<
    PackEntryView,
> {
    Seq::new(
        mapped.len(),
        |i: int|
            PackEntryView {
                source: mapped[i].0,
                package_path: mapped[i].1,
                target: mapped[i].0,
                conflicts: conflicts[i],
            },
    )
}

impl PackPlan {
    /// The plan for the package `name` at `package_root`, from the files and
    /// their package paths (`mapped`); its entries are ordered by package
    /// path.
    pub fn from_package_paths(
        name: &str,
        package_root: &str,
        mapped: &Vec<(String, String)>,
        conflicts: &Vec<bool>,
    ) -> (res: PackPlan)
        requires
            conflicts@.len() == mapped@.len(),
        ensures
            res.name@ == name@,
            res.package_root@ == package_root@,
            pack_entries_view(res.entries@) == sort_by_package_path(
                pack_entries_spec(pairs_view(mapped@), conflicts@),
            ),
    {
        let ghost input = pack_entries_spec(pairs_view(mapped@), conflicts@);
        let mut sorted: Vec<PackEntry> = Vec::new();
        let mut i: usize = 0;
        assert(input.take(0) =~= Seq::<PackEntryView>::empty());
        assert(pack_entries_view(sorted@) =~= Seq::<PackEntryView>::empty());
        while i < mapped.len()
            invariant
                i <= mapped@.len(),
                conflicts@.len() == mapped@.len(),
                input == pack_entries_spec(pairs_view(mapped@), conflicts@),
                pack_entries_view(sorted@) == sort_by_package_path(input.take(i as int)),
            decreases mapped@.len() - i,
        {
            let x = PackEntry {
                source: mapped[i].0.clone(),
                package_path: mapped[i].1.clone(),
                target: mapped[i].0.clone(),
                conflicts: conflicts[i],
            };
            assert(x@ == input[i as int]);
            let ghost before = pack_entries_view(sorted@);
            let mut k: usize = 0;
            while k < sorted.len() && path_order(x.package_path.as_str(), sorted[k].package_path.as_str())
                != Order::Less
                invariant
                    k <= sorted@.len(),
                    before == pack_entries_view(sorted@),
                    first_pack_after(before, x@.package_path, 0) == first_pack_after(
                        before,
                        x@.package_path,
                        k as int,
                    ),
                decreases sorted@.len() - k,
            {
                k += 1;
            }
            let ghost xv = x@;
            sorted.insert(k, x);
            proof {
                assert(input.take(i + 1).drop_last() =~= input.take(i as int));
                assert(input.take(i + 1).last() == xv);
                assert(pack_entries_view(sorted@) =~= before.insert(k as int, xv));
            }
            i += 1;
        }
        assert(input.take(i as int) =~= input);
        PackPlan {
            name: crate::text::to_string(name),
            package_root: crate::text::to_string(package_root),
            entries: sorted,
        }
    }
}

/// The entries whose decision in `kept` is to keep them, in order.
pub open spec fn filter_kept(v: Seq<PackEntryView>, kept: Seq<bool>) -> Seq<PackEntryView>
    decreases v.len(),
{
    if v.len() == 0 {
        v
    } else {
        let prev = filter_kept(v.drop_last(), kept.take(v.len() - 1));
        if kept[v.len() - 1] {
            prev.push(v.last())
        } else {
            prev
        }
    }
}

impl PackPlan {
    /// The plan with only the entries that `keep` accepts, in order.
    pub fn retain(self, keep: impl Fn(&PackEntry) -> bool) -> (res: Self)
        requires
            forall|i: int| 0 <= i < self.entries@.len() ==> call_requires(keep, (&self.entries@[i],)),
        ensures
            res.name@ == self.name@,
            res.package_root@ == self.package_root@,
            exists|kept: Seq<bool>|
                kept.len() == self.entries@.len() && (forall|i: int|
                    0 <= i < kept.len() ==> call_ensures(keep, (&self.entries@[i],), #[trigger] kept[i]))
                    && pack_entries_view(res.entries@) == filter_kept(
                    pack_entries_view(self.entries@),
                    kept,
                ),
    {
        let ghost all = pack_entries_view(self.entries@);
        let ghost mut kept: Seq<bool> = Seq::empty();
        let mut out: Vec<PackEntry> = Vec::new();
        let mut i: usize = 0;
        assert(all.take(0) =~= Seq::<PackEntryView>::empty());
        assert(pack_entries_view(out@) =~= Seq::<PackEntryView>::empty());
        while i < self.entries.len()
            invariant
                i <= self.entries@.len(),
                all == pack_entries_view(self.entries@),
                kept.len() == i,
                forall|j: int| 0 <= j < self.entries@.len() ==> call_requires(keep, (&self.entries@[j],)),
                forall|j: int| 0 <= j < i ==> call_ensures(keep, (&self.entries@[j],), #[trigger] kept[j]),
                pack_entries_view(out@) == filter_kept(all.take(i as int), kept),
            decreases self.entries@.len() - i,
        {
            let decision = keep(&self.entries[i]);
            let ghost before = pack_entries_view(out@);
            if decision {
                out.push(self.entries[i].copy());
                assert(pack_entries_view(out@) =~= before.push(all[i as int]));
            }
            proof {
                let k2 = kept.push(decision);
                assert(all.take(i + 1).drop_last() =~= all.take(i as int));
                assert(k2.take(i as int) =~= kept);
                assert(all.take(i + 1).last() == all[i as int]);
                kept = k2;
            }
            i += 1;
        }
        assert(all.take(i as int) =~= all);
        let PackPlan { name, package_root, entries: _ } = self;
        PackPlan { name, package_root, entries: out }
    }

    /// The package installs every packed file back where it was: each entry
    /// is a link entry of the package from its package path to its target.
    pub fn verify_package_plan(&self, plan: &PackagePlan) -> (res: Result<(), PackError>)
        ensures
            match first_unmapped(pack_entries_view(self.entries@), entries_view(plan.entries@), 0) {
                None => res is Ok,
                Some(i) => res matches Err(e) && e.kind() == (PackErr::MappingMismatch {
                    source: self.entries@[i].source@,
                    package_path: self.entries@[i].package_path@,
                }),
            },
    {
        let ghost packed = pack_entries_view(self.entries@);
        let ghost es = entries_view(plan.entries@);
        let mut i: usize = 0;
        while i < self.entries.len()
            invariant
                i <= packed.len(),
                packed == pack_entries_view(self.entries@),
                es == entries_view(plan.entries@),
                first_unmapped(packed, es, 0) == first_unmapped(packed, es, i as int),
            decreases packed.len() - i,
        {
            let p = &self.entries[i];
            let mut valid = false;
            let mut k: usize = 0;
            while k < plan.entries.len()
                invariant
                    k <= es.len(),
                    es == entries_view(plan.entries@),
                    packed == pack_entries_view(self.entries@),
                    i < packed.len(),
                    p@ == packed[i as int],
                    valid == exists|q: int| 0 <= q < k && installs(#[trigger] es[q], packed[i as int]),
                decreases es.len() - k,
            {
                let e = &plan.entries[k];
                let ok = path_equal(e.source.as_str(), p.package_path.as_str()) && path_equal(
                    e.target.as_str(),
                    p.target.as_str(),
                ) && e.kind == EntryKind::Symlink;
                proof {
                    assert(es[k as int] == e@);
                    if ok {
                        assert(installs(es[k as int], packed[i as int]));
                    }
                    if !valid && !ok {
                        assert forall|q: int| 0 <= q < k + 1 implies !installs(#[trigger] es[q], packed[i as int]) by {
                            if q < k {
                                assert(!(exists|r: int| 0 <= r < k && installs(#[trigger] es[r], packed[i as int])));
                            }
                        }
                    }
                }
                if ok {
                    valid = true;
                }
                k += 1;
            }
            if !valid {
                return Err(
                    PackError::MappingMismatch { source: p.source.clone(), package_path: p.package_path.clone() },
                );
            }
            i += 1;
        }
        Ok(())
    }
}

/// The package entry `e` installs the packed file `p`.
pub open spec fn installs(e: EntryView, p: PackEntryView) -> bool {
    path_eq(e.source, p.package_path) && path_eq(e.target, p.target) && e.kind == EntryKind::Symlink
}

/// The first packed file at or after `i` that no entry installs.
pub open spec fn first_unmapped(packed: Seq<PackEntryView>, es: Seq<EntryView>, i: int) -> Option<int>
    decreases packed.len() - i,
{
    if i < 0 || i >= packed.len() {
        None
    } else if !(exists|q: int| 0 <= q < es.len() && installs(#[trigger] es[q], packed[i])) {
        Some(i)
    } else {
        first_unmapped(packed, es, i + 1)
    }
}

/// The targets of packed files that installing left for another reason than
/// being up to date.
pub open spec fn failed_targets(packed: Seq<PackEntryView>, skipped: Seq<(EntryView, Seq<char>)>) -> Seq<
    Seq<char>,
>
    decreases skipped.len(),
{
    if skipped.len() == 0 {
        Seq::empty()
    } else {
        let prev = failed_targets(packed, skipped.drop_last());
        let (e, reason) = skipped.last();
        if (exists|j: int| 0 <= j < packed.len() && path_eq(#[trigger] packed[j].target, e.target))
            && reason != up_to_date() {
            prev.push(e.target)
        } else {
            prev
        }
    }
}

impl PackPlan {
    /// Refuses an installation that left a packed file's target.
    pub fn check_installed(&self, report: &ApplyReport) -> (res: Result<(), PackError>)
        ensures
            failed_targets(pack_entries_view(self.entries@), skipped_view(report.skipped@)).len() == 0
                <==> (res is Ok),
            res matches Err(e) ==> e.kind() == (PackErr::InstallSkipped {
                paths: failed_targets(pack_entries_view(self.entries@), skipped_view(report.skipped@)),
            }),
    {
        let ghost packed = pack_entries_view(self.entries@);
        let ghost sk = skipped_view(report.skipped@);
        let up = vec![
            'a', 'l', 'r', 'e', 'a', 'd', 'y', ' ', 'u', 'p', ' ', 't', 'o', ' ', 'd', 'a', 't', 'e',
        ];
        assert(up@ =~= up_to_date());
        let mut failed: Vec<String> = Vec::new();
        let mut i: usize = 0;
        assert(sk.take(0) =~= Seq::<(EntryView, Seq<char>)>::empty());
        assert(strings_view(failed@) =~= Seq::<Seq<char>>::empty());
        while i < report.skipped.len()
            invariant
                i <= sk.len(),
                packed == pack_entries_view(self.entries@),
                sk == skipped_view(report.skipped@),
                up@ == up_to_date(),
                strings_view(failed@) == failed_targets(packed, sk.take(i as int)),
            decreases sk.len() - i,
        {
            let skipped = &report.skipped[i];
            let mut selected = false;
            let mut j: usize = 0;
            while j < self.entries.len()
                invariant
                    j <= packed.len(),
                    packed == pack_entries_view(self.entries@),
                    selected == exists|q: int|
                        0 <= q < j && path_eq(#[trigger] packed[q].target, skipped.entry.target@),
                decreases packed.len() - j,
            {
                let same = path_equal(self.entries[j].target.as_str(), skipped.entry.target.as_str());
                proof {
                    assert(packed[j as int].target == self.entries@[j as int].target@);
                    if !selected && !same {
                        assert forall|q: int| 0 <= q < j + 1 implies !path_eq(
                            #[trigger] packed[q].target,
                            skipped.entry.target@,
                        ) by {
                            if q < j {
                                assert(!(exists|r: int|
                                    0 <= r < j && path_eq(#[trigger] packed[r].target, skipped.entry.target@)));
                            }
                        }
                    }
                }
                if same {
                    selected = true;
                }
                j += 1;
            }
            let reason = chars_of(skipped.reason.as_str());
            let fresh = !crate::text::chars_equal(reason.as_slice(), up.as_slice());
            let ghost before = strings_view(failed@);
            proof {
                assert(sk.take(i + 1).drop_last() =~= sk.take(i as int));
                assert(sk.take(i + 1).last() == sk[i as int]);
                assert(sk[i as int] == (skipped.entry@, skipped.reason@));
            }
            if selected && fresh {
                failed.push(skipped.entry.target.clone());
                assert(strings_view(failed@) =~= before.push(skipped.entry.target@));
            }
            i += 1;
        }
        assert(sk.take(i as int) =~= sk);
        if failed.len() == 0 {
            Ok(())
        } else {
            Err(PackError::InstallSkipped { paths: failed })
        }
    }

    /// Where an entry's copy is staged below `staged_root`: at its package
    /// path's place below the package root.
    pub fn staged_path(&self, entry: &PackEntry, staged_root: &str) -> (res: Result<String, PackError>)
        ensures
            match strip_prefix(entry.package_path@, self.package_root@) {
                Some(r) => res matches Ok(x) && x@ == join(staged_root@, r),
                None => res matches Err(e) && e.kind() == PackErr::InvalidPackageRoot(entry.package_path@),
            },
    {
        match crate::path::path_strip_prefix(entry.package_path.as_str(), self.package_root.as_str()) {
            Some(r) => Ok(path_join(staged_root, r.as_str())),
            None => Err(PackError::InvalidPackageRoot(entry.package_path.clone())),
        }
    }
}

/// The stages of packing, in the order they run: copy the files into a
/// staging directory, move them into the package, load the package and check
/// that it maps back to the sources, check that the sources did not change,
/// remove the sources, read the targets, install the package, check that
/// every packed file was installed, and remove the staging directory.
#[derive(Debug, Clone, Copy, PartialEq, Eq, Structural)]
pub enum PackStage {
    Stage,
    Commit,
    LoadPackage,
    VerifyPackage,
    VerifySources,
    RemoveSources,
    ObserveTargets,
    Install,
    CheckInstalled,
    Cleanup,
}

/// A part of packing to undo after a failure.
#[derive(Debug, Clone, Copy, PartialEq, Eq, Structural)]
pub enum Undo {
    /// Remove the targets that the installation made the package's entries.
    RemoveInstalled,
    /// Put back the sources that were removed.
    RestoreSources,
    /// Put back the package files that were replaced or added.
    RestorePackageFiles,
    /// Remove the staging directory.
    DiscardTransaction,
}

/// What a failure at `stage` undoes, in order: the latest change first, and
/// the staging directory last. A failure to remove the staging directory
/// after success undoes nothing.
pub open spec fn rollback_spec(stage: PackStage) -> Seq<Undo> {
    match stage {
        PackStage::Stage => seq![Undo::DiscardTransaction],
        PackStage::Commit | PackStage::LoadPackage | PackStage::VerifyPackage | PackStage::VerifySources => seq![
            Undo::RestorePackageFiles,
            Undo::DiscardTransaction,
        ],
        PackStage::RemoveSources | PackStage::ObserveTargets => seq![
            Undo::RestoreSources,
            Undo::RestorePackageFiles,
            Undo::DiscardTransaction,
        ],
        PackStage::Install | PackStage::CheckInstalled => seq![
            Undo::RemoveInstalled,
            Undo::RestoreSources,
            Undo::RestorePackageFiles,
            Undo::DiscardTransaction,
        ],
        PackStage::Cleanup => Seq::empty(),
    }
}

/// What to undo when packing fails at `stage`.
pub fn rollback_for(stage: PackStage) -> (res: Vec<Undo>)
    ensures
        res@ == rollback_spec(stage),
{
    let mut res: Vec<Undo> = Vec::new();
    match stage {
        PackStage::Install | PackStage::CheckInstalled => {
            res.push(Undo::RemoveInstalled);
        },
        _ => {},
    }
    match stage {
        PackStage::RemoveSources | PackStage::ObserveTargets | PackStage::Install | PackStage::CheckInstalled => {
            res.push(Undo::RestoreSources);
        },
        _ => {},
    }
    match stage {
        PackStage::Stage | PackStage::Cleanup => {},
        _ => {
            res.push(Undo::RestorePackageFiles);
        },
    }
    match stage {
        PackStage::Cleanup => {},
        _ => {
            res.push(Undo::DiscardTransaction);
        },
    }
    proof {
        assert(res@ =~= rollback_spec(stage));
    }
    res
}

/// Whatever stage of packing fails, each change made before it is undone,
/// latest first: once the sources are removed they are put back, once the
/// package is installed its new targets are removed before that, and the
/// staging directory goes last; only its own removal, after every change
/// stands, undoes nothing.
pub proof fn lemma_rollback_undoes_in_reverse(stage: PackStage)
    ensures
        stage != PackStage::Cleanup ==> rollback_spec(stage).last() == Undo::DiscardTransaction,
        stage != PackStage::Stage && stage != PackStage::Cleanup ==> rollback_spec(stage).contains(
            Undo::RestorePackageFiles,
        ),
        forall|i: int, j: int|
            0 <= i < j < rollback_spec(stage).len() ==> undo_rank(#[trigger] rollback_spec(stage)[i]) < undo_rank(
                #[trigger] rollback_spec(stage)[j],
            ),
{
    let r = rollback_spec(stage);
    if stage != PackStage::Stage && stage != PackStage::Cleanup {
        assert(r.contains(Undo::RestorePackageFiles)) by {
            if stage == PackStage::Install || stage == PackStage::CheckInstalled {
                assert(r[2] == Undo::RestorePackageFiles);
            } else if stage == PackStage::RemoveSources || stage == PackStage::ObserveTargets {
                assert(r[1] == Undo::RestorePackageFiles);
            } else {
                assert(r[0] == Undo::RestorePackageFiles);
            }
        }
    }
}

/// The order of the undo actions: the reverse of the order in which packing
/// makes the changes they undo.
pub open spec fn undo_rank(u: Undo) -> int {
    match u {
        Undo::RemoveInstalled => 0,
        Undo::RestoreSources => 1,
        Undo::RestorePackageFiles => 2,
        Undo::DiscardTransaction => 3,
    }
}

/// A failure, with the failures of undoing what was done before it: without
/// any, the failure itself; otherwise the failure's message and theirs.
pub fn with_rollback(error: PackError, rollback: Vec<String>) -> (res: PackError)
    ensures
        rollback@.len() == 0 ==> res.kind() == error.kind(),
        rollback@.len() > 0 ==> (res matches PackError::Rollback { operation, failures } && failures@
            == rollback@ && pack_message_spec(error.kind()).is_prefix_of(operation@) && (!pack_system_worded(
            error.kind(),
        ) ==> operation@ == pack_message_spec(error.kind()))),
{
    if rollback.len() == 0 {
        error
    } else {
        PackError::Rollback { operation: error.message(), failures: rollback }
    }
}

/// Which targets of the package already are their entries, before it is
/// installed; a template that cannot be rendered is an error.
pub open spec fn management_spec(
    es: Seq<EntryView>,
    os: Seq<EntryObservation>,
    values: Map<Seq<char>, Seq<char>>,
    i: int,
) -> Result<Seq<bool>, PkgErr>
    decreases es.len() - i,
{
    if i < 0 || i >= es.len() {
        Ok(Seq::empty())
    } else {
        match rendered_spec(es[i], &os[i], values) {
            Err(e) => Err(e),
            Ok(r) => match management_spec(es, os, values, i + 1) {
                Err(e) => Err(e),
                Ok(rest) => Ok(seq![is_current_spec(es[i], r, os[i].target)] + rest),
            },
        }
    }
}

/// Which targets of the package already are their entries.
#[verifier::loop_isolation(false)]
pub fn package_management_state(
    plan: &PackagePlan,
    template_values: &Values,
    observations: &Vec<EntryObservation>,
) -> (res: Result<Vec<bool>, PackageError>)
    requires
        observations@.len() == plan.entries@.len(),
    ensures
        match management_spec(entries_view(plan.entries@), observations@, template_values.map(), 0) {
            Ok(v) => res matches Ok(x) && x@ == v,
            Err(e) => res matches Err(x) && x.kind() == e,
        },
{
    let ghost es = entries_view(plan.entries@);
    let ghost whole = management_spec(es, observations@, template_values.map(), 0);
    let mut out: Vec<bool> = Vec::new();
    let mut i: usize = 0;
    while i < plan.entries.len()
        invariant
            i <= es.len(),
            whole == match management_spec(es, observations@, template_values.map(), i as int) {
                Ok(rest) => Ok(out@ + rest),
                Err(e) => Err::<Seq<bool>, PkgErr>(e),
            },
        decreases es.len() - i,
    {
        let entry = &plan.entries[i];
        let observation = &observations[i];
        let rendered: Option<String> = match entry.kind {
            EntryKind::Symlink => None,
            EntryKind::Template => {
                let text = match &observation.source_text {
                    Some(t) => t.clone(),
                    None => String::new(),
                };
                Some(render_template(entry.source.as_str(), text.as_str(), template_values)?)
            },
        };
        let current = match &rendered {
            Some(r) => target_is_current_entry(entry, Some(r.as_str()), &observation.target),
            None => target_is_current_entry(entry, None, &observation.target),
        };
        let ghost before = out@;
        out.push(current);
        proof {
            match management_spec(es, observations@, template_values.map(), i + 1) {
                Ok(rest) => {
                    assert(before + (seq![current] + rest) =~= out@ + rest);
                },
                Err(e) => {},
            }
        }
        i += 1;
    }
    assert(out@ + Seq::<bool>::empty() =~= out@);
    Ok(out)
}

/// Normalizing leaves no `.` or `..` component: a path made absolute by
/// `absolute_path` holds none.
pub proof fn lemma_normalized_without_dots(cs: Seq<Comp>)
    ensures
        forall|i: int|
            0 <= i < normalize_comps(cs).len() ==> !(#[trigger] normalize_comps(cs)[i] is Cur)
                && !(normalize_comps(cs)[i] is Parent),
    decreases cs.len(),
{
    if cs.len() > 0 {
        lemma_normalized_without_dots(cs.drop_last());
        let acc = normalize_comps(cs.drop_last());
        match cs.last() {
            Comp::Cur => {},
            Comp::Parent => {
                if !(acc.len() == 0 || (acc.len() == 1 && acc[0] == Comp::Root)) {
                    assert forall|i: int| 0 <= i < acc.drop_last().len() implies acc.drop_last()[i] == acc[i] by {}
                }
            },
            c => {
                assert forall|i: int| 0 <= i < acc.len() implies acc.push(c)[i] == acc[i] by {}
            },
        }
    }
}

/// The first of `parents` that exists and is not a directory.
pub open spec fn first_non_directory(parents: Seq<(Seq<char>, Option<FileKind>)>, i: int) -> Option<int>
    decreases parents.len() - i,
{
    if i < 0 || i >= parents.len() {
        None
    } else if parents[i].1 matches Some(k) && k != FileKind::Directory {
        Some(i)
    } else {
        first_non_directory(parents, i + 1)
    }
}

pub open spec fn kinds_view(v: Seq<(String, Option<FileKind>)>) -> Seq<(Seq<char>, Option<FileKind>)> {
    v.map_values(|p: (String, Option<FileKind>)| (p.0@, p.1))
}

/// The directories between a package file and the package root, read from
/// the file upwards (`None` where nothing exists), must be directories where
/// they exist.
pub fn check_destination_parents(parents: &Vec<(String, Option<FileKind>)>) -> (res: Result<(), PackError>)
    ensures
        match first_non_directory(kinds_view(parents@), 0) {
            Some(i) => res matches Err(e) && e.kind() == (PackErr::DestinationParentNotDirectory {
                path: kinds_view(parents@)[i].0,
            }),
            None => res is Ok,
        },
{
    let ghost kv = kinds_view(parents@);
    let mut i: usize = 0;
    while i < parents.len()
        invariant
            i <= kv.len(),
            kv == kinds_view(parents@),
            first_non_directory(kv, 0) == first_non_directory(kv, i as int),
        decreases kv.len() - i,
    {
        assert(kv[i as int] == (parents@[i as int].0@, parents@[i as int].1));
        match parents[i].1 {
            Some(k) => {
                if k != FileKind::Directory {
                    return Err(PackError::DestinationParentNotDirectory { path: parents[i].0.clone() });
                }
            },
            None => {},
        }
        i += 1;
    }
    Ok(())
}

/// A package file may be written where nothing exists or over a regular
/// file; the result tells whether it replaces one.
pub fn destination_conflicts(destination: &str, kind: Option<FileKind>) -> (res: Result<bool, PackError>)
    ensures
        match kind {
            None => res == Ok::<bool, PackError>(false),
            Some(FileKind::File) => res == Ok::<bool, PackError>(true),
            Some(_) => res matches Err(e) && e.kind() == (PackErr::InvalidDestinationType {
                path: destination@,
            }),
        },
{
    match kind {
        None => Ok(false),
        Some(FileKind::File) => Ok(true),
        Some(_) => Err(PackError::InvalidDestinationType { path: crate::text::to_string(destination) }),
    }
}

/// After copying, a source and its package copy must still be regular files
/// with the same permission bits.
pub fn check_copy_metadata(
    source: &str,
    source_kind: FileKind,
    copy_kind: FileKind,
    source_mode: u32,
    copy_mode: u32,
) -> (res: Result<(), PackError>)
    ensures
        (source_kind == FileKind::File && copy_kind == FileKind::File && source_mode == copy_mode) <==> (res is Ok),
        res matches Err(e) ==> e.kind() == PackErr::SourceChanged(source@),
{
    if source_kind == FileKind::File && copy_kind == FileKind::File && source_mode == copy_mode {
        Ok(())
    } else {
        Err(PackError::SourceChanged(crate::text::to_string(source)))
    }
}

/// After copying, a source and its package copy must hold the same bytes.
pub fn check_copy_contents(source: &str, source_bytes: &Vec<u8>, copy_bytes: &Vec<u8>) -> (res: Result<
    (),
    PackError,
>)
    ensures
        (source_bytes@ == copy_bytes@) <==> (res is Ok),
        res matches Err(e) ==> e.kind() == PackErr::SourceChanged(source@),
{
    if source_bytes.len() != copy_bytes.len() {
        return Err(PackError::SourceChanged(crate::text::to_string(source)));
    }
    let mut i: usize = 0;
    while i < source_bytes.len()
        invariant
            i <= source_bytes@.len(),
            source_bytes@.len() == copy_bytes@.len(),
            forall|j: int| 0 <= j < i ==> source_bytes@[j] == copy_bytes@[j],
        decreases source_bytes@.len() - i,
    {
        if source_bytes[i] != copy_bytes[i] {
            return Err(PackError::SourceChanged(crate::text::to_string(source)));
        }
        i += 1;
    }
    assert(source_bytes@ =~= copy_bytes@);
    Ok(())
}

/// A package file named `n` that deploys as a link keeps its name, with a
/// leading `dot-` read as `.`.
proof fn lemma_deployed_name_steady(n: Seq<char>)
    requires
        crate::path::plain_name(n),
        deployment_spec(n).0 == EntryKind::Symlink,
    ensures
        deployment_spec(n).1 == crate::package::undot(n),
        crate::path::steady_segment(crate::package::undot(n)),
        crate::package::piece_name(crate::package::undot(n)),
{
    let u = crate::package::undot(n);
    if u != n {
        assert(u == seq!['.'] + n.skip(4));
        assert(!u.contains('/')) by {
            if u.contains('/') {
                let k = choose|k: int| 0 <= k < u.len() && u[k] == '/';
                assert(k > 0);
                assert(n[k + 3] == '/');
            }
        }
        assert(u.len() >= 2);
        assert(u != crate::path::dot()) by {
            assert(u.len() != crate::path::dot().len());
        }
    }
}

/// A file that packing accepts goes to a package path that installs it back
/// where it was: the package file lies in the directory of the nearest
/// configured path, and the target that installing gives it (that path
/// joined with the deployed names of the file's place in the package) equals
/// the file's path.
pub proof fn lemma_packed_file_deploys_to_source(
    package_root: Seq<char>,
    source: Seq<char>,
    m: Map<Seq<char>, Seq<char>>,
)
    requires
        package_path_spec(package_root, source, m) is Ok,
    ensures
        ({
            let (name, relative) = nearest_spec(source, m)->0;
            let mapped = map_backup_spec(relative, true)->0;
            &&& package_path_spec(package_root, source, m)->Ok_0 == join(join(package_root, name), mapped)
            &&& path_eq(
                crate::package::deployed_target(
                    m[name],
                    components(mapped).map_values(|c: Comp| c->Normal_0),
                ),
                source,
            )
        }),
{
    let (name, relative) = nearest_spec(source, m)->0;
    let n = choose|n: Seq<char>| crate::package::is_nearest(source, m, n);
    assert(name == n);
    let root = m[name];
    assert(crate::package::holds_target(source, root));
    let k = components(root).len() as int;
    let tc = components(source);
    let cs = tc.skip(k);
    assert(relative == render(cs));
    crate::path::lemma_absolute_components(root);
    assert(tc.take(k) == components(root));
    assert(source.len() > 0 && source[0] == '/') by {
        if !is_absolute(source) {
            assert(components(source)[0] == components(root)[0]);
            assert(components(source) == crate::path::segments_components(crate::path::segments(source)));
            crate::path::lemma_segments_components_kinds(crate::path::segments(source));
        }
    }
    crate::path::lemma_absolute_components(source);
    crate::path::lemma_normal_components_plain(source);
    assert(map_backup_spec(relative, true) is Some);
    assert(cs.len() > 0) by {
        if cs.len() == 0 {
            assert(cs =~= Seq::<Comp>::empty());
            assert(relative == Seq::<char>::empty());
            let e = seq![Seq::<char>::empty()];
            assert(crate::path::segments(relative) == e);
            assert(e.drop_last() =~= Seq::<Seq<char>>::empty());
            assert(crate::path::segments_components(e.drop_last()) == Seq::<Comp>::empty());
            assert(e.last() == Seq::<char>::empty());
            assert(crate::path::segment_component(e.last(), 0) == Seq::<Comp>::empty());
            assert(crate::path::segments_components(e) =~= Seq::<Comp>::empty());
            assert(components(relative) =~= Seq::<Comp>::empty());
        }
    }
    assert forall|i: int| 0 <= i < cs.len() implies crate::path::steady_comp(#[trigger] cs[i]) by {
        assert(cs[i] == tc[i + k]);
        assert(!(tc[i + k] is Root) && !(tc[i + k] is Cur));
    }
    crate::path::lemma_render_steady(cs);
    assert(components(relative) == cs);
    let mapped = map_backup_spec(relative, true)->0;
    let bnames = cs.map_values(|c: Comp| crate::package::backup_name(c->Normal_0, true));
    assert(mapped == join_names(Seq::empty(), bnames));
    assert forall|i: int| 0 <= i < bnames.len() implies crate::path::plain_name(#[trigger] bnames[i]) by {
        assert(cs[i] is Normal);
        crate::package::lemma_backup_name_plain(cs[i]->Normal_0);
    }
    crate::package::lemma_join_names_components(bnames);
    let mc = components(mapped);
    assert(mc == bnames.map_values(|x: Seq<char>| Comp::Normal(x)));
    let names = mc.map_values(|c: Comp| c->Normal_0);
    assert(names =~= bnames);
    assert(round_trips(relative, mapped));
    let deployed = bnames.map_values(|x: Seq<char>| deployment_spec(x).1);
    assert(mc.map_values(|c: Comp| deployment_spec(c->Normal_0).1) =~= deployed);
    assert forall|i: int| 0 <= i < deployed.len() implies crate::path::steady_segment(#[trigger] deployed[i])
        && crate::package::piece_name(deployed[i]) by {
        assert(mc[i] == Comp::Normal(bnames[i]));
        assert(deployment_spec(mc[i]->Normal_0).0 == EntryKind::Symlink);
        lemma_deployed_name_steady(bnames[i]);
    }
    crate::package::lemma_join_names_segments(deployed);
    let joined = join_names(Seq::empty(), deployed);
    crate::path::lemma_steady_segments_components(deployed);
    assert(components(joined) =~= crate::path::segments_components(crate::path::segments(joined)));
    assert(components(joined) == cs);
    let originals = cs.map_values(|c: Comp| c->Normal_0);
    assert forall|i: int| 0 <= i < deployed.len() implies deployed[i] == originals[i] by {
        assert(components(joined)[i] == crate::path::steady_component(deployed[i]));
        assert(cs[i] is Normal);
    }
    assert(deployed =~= originals);
    assert(names.map_values(|x: Seq<char>| deployment_spec(x).1) =~= deployed);
    assert(root.len() > 0);
    crate::package::lemma_join_names_base(root, deployed);
    assert forall|i: int| 0 <= i < crate::path::segments(joined).len() implies crate::path::steady_segment(
        #[trigger] crate::path::segments(joined)[i],
    ) by {
        assert(crate::path::segments(joined)[i] == deployed[i]);
    }
    crate::path::lemma_join_components(root, joined);
    assert(components(root) + cs =~= tc);
}

} // verus!
