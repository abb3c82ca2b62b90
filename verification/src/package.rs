//! Packages: the files of a package directory and where they are deployed,
//! templates, and the decisions taken while installing, removing and
//! restoring a package.
use crate::path::{
    comps_view, components, dot, dot_dot, lemma_normal_components_plain, lemma_plain_segments_components,
    lemma_segments_append, lemma_segments_nonempty, lemma_segments_single, plain_name, segments,
    segments_components, is_absolute, join, path_components, path_eq, path_equal,
    path_is_absolute, path_join, path_lt, path_order, Comp, Component,
};
use crate::text::{
    cat, io_error_text, join_texts, joined, to_string,
    text_lt, chars_of, chars_range, find, find_chars, find_from, lemma_find_from_bounds, occurs_at,
    starts_with, starts_with_chars, string_of, trim, trim_range, Order,
};
use crate::values::Values;
use vstd::prelude::*;

verus! {

/// How a package file is deployed.
#[derive(Debug, Clone, Copy, PartialEq, Eq, Structural)]
pub enum EntryKind {
    /// A symbolic link to the package file.
    Symlink,
    /// The package file rendered with the template values.
    Template,
}

/// A package file and the path it is deployed to.
#[derive(Debug, Clone, PartialEq, Eq)]
pub struct PackageEntry {
    pub source: String,
    pub target: String,
    pub kind: EntryKind,
}

/// A package entry, as characters.
pub struct EntryView {
    pub source: Seq<char>,
    pub target: Seq<char>,
    pub kind: EntryKind,
}

impl View for PackageEntry {
    type V = EntryView;

    open spec fn view(&self) -> EntryView {
        EntryView { source: self.source@, target: self.target@, kind: self.kind }
    }
}

pub open spec fn entries_view(v: Seq<PackageEntry>) -> Seq<EntryView> {
    v.map_values(|e: PackageEntry| e@)
}

impl PackageEntry {
    /// A copy of the entry.
    pub fn copy(&self) -> (res: PackageEntry)
        ensures
            res@ == self@,
    {
        PackageEntry { source: self.source.clone(), target: self.target.clone(), kind: self.kind }
    }
}

/// A package failure.
#[derive(Debug)]
#[allow(inconsistent_fields)]
pub enum PackageError {
    InvalidName { name: String },
    ReadDirectory { path: String, source: std::io::Error },
    ReadMetadata { path: String, source: std::io::Error },
    NotDirectory { path: String },
    MetadataNotDirectory { path: String },
    UnexpectedRootEntry { path: String },
    UnknownVariableDirectory { path: String, variable: String },
    RelativeVariablePath { variable: String, value: String },
    SymbolicLink { path: String },
    UnsupportedFileType { path: String },
    InvalidFileName { path: String },
    TargetCollision { first: String, second: String, target: String },
    ReadFile { path: String, source: std::io::Error },
    ReadLink { path: String, source: std::io::Error },
    CreateDirectory { path: String, source: std::io::Error },
    WriteFile { path: String, source: std::io::Error },
    RemoveTarget { path: String, source: std::io::Error },
    CreateBackupDirectory { path: String, source: std::io::Error },
    MoveToBackup { source_path: String, backup: String, source: std::io::Error },
    InvalidBackupTarget { path: String },
    BackupAlreadyExists { path: String },
    BackupPackageNotFound { path: String },
    BackupPackageEmpty { path: String },
    InvalidBackupEntry { path: String },
    UnknownBackupVariable { path: String, variable: String },
    BackupTargetNotInPackage { backup: String, target: String },
    DuplicateRestoreTarget { path: String },
    UnmanagedTargets { paths: Vec<String> },
    RestoreTargetNotManaged { path: String },
    RestoreBackup { backup: String, target: String, source: std::io::Error },
    RemoveBackupDirectory { path: String, source: std::io::Error },
    CreateLink { source: String, target: String, source_error: std::io::Error },
    TargetIsDirectory { path: String },
    UnknownTemplateVariable { path: String, variable: String },
}

/// A package failure, as characters; for a failed file-system call, the
/// paths it names (the system's error itself is left out).
pub enum PkgErr {
    InvalidName { name: Seq<char> },
    NotDirectory { path: Seq<char> },
    MetadataNotDirectory { path: Seq<char> },
    UnexpectedRootEntry { path: Seq<char> },
    UnknownVariableDirectory { path: Seq<char>, variable: Seq<char> },
    RelativeVariablePath { variable: Seq<char>, value: Seq<char> },
    SymbolicLink { path: Seq<char> },
    UnsupportedFileType { path: Seq<char> },
    InvalidFileName { path: Seq<char> },
    TargetCollision { first: Seq<char>, second: Seq<char>, target: Seq<char> },
    InvalidBackupTarget { path: Seq<char> },
    BackupAlreadyExists { path: Seq<char> },
    BackupPackageNotFound { path: Seq<char> },
    BackupPackageEmpty { path: Seq<char> },
    InvalidBackupEntry { path: Seq<char> },
    UnknownBackupVariable { path: Seq<char>, variable: Seq<char> },
    BackupTargetNotInPackage { backup: Seq<char>, target: Seq<char> },
    DuplicateRestoreTarget { path: Seq<char> },
    UnmanagedTargets { paths: Seq<Seq<char>> },
    RestoreTargetNotManaged { path: Seq<char> },
    TargetIsDirectory { path: Seq<char> },
    UnknownTemplateVariable { path: Seq<char>, variable: Seq<char> },
    ReadDirectory { path: Seq<char> },
    ReadMetadata { path: Seq<char> },
    ReadFile { path: Seq<char> },
    ReadLink { path: Seq<char> },
    CreateDirectory { path: Seq<char> },
    WriteFile { path: Seq<char> },
    RemoveTarget { path: Seq<char> },
    CreateBackupDirectory { path: Seq<char> },
    RemoveBackupDirectory { path: Seq<char> },
    MoveToBackup { source: Seq<char>, backup: Seq<char> },
    RestoreBackup { backup: Seq<char>, target: Seq<char> },
    CreateLink { source: Seq<char>, target: Seq<char> },
}

/// The text that reports a failure the package rules decide.
pub open spec fn package_message_spec(k: PkgErr) -> Seq<char> {
    match k {
        PkgErr::InvalidName { name } => "invalid package name '"@ + name + "'"@,
        PkgErr::NotDirectory { path } => "package path is not a directory: "@ + path,
        PkgErr::MetadataNotDirectory { path } => "package metadata path must be a directory: "@ + path,
        PkgErr::UnexpectedRootEntry { path } => "package root only allows path directories and .dtm: "@ + path,
        PkgErr::UnknownVariableDirectory { path, variable } => "package directory "@ + path + " references unknown path '"@ + variable + "'"@,
        PkgErr::RelativeVariablePath { variable, value } => "path '"@ + variable + "' must resolve to an absolute path, got "@ + value,
        PkgErr::SymbolicLink { path } => "symbolic links are not supported in package sources: "@ + path,
        PkgErr::UnsupportedFileType { path } => "unsupported file type in package source: "@ + path,
        PkgErr::InvalidFileName { path } => "invalid template filename: "@ + path,
        PkgErr::TargetCollision { first, second, target } => "package files "@ + first + " and "@ + second + " both map to "@ + target,
        PkgErr::InvalidBackupTarget { path } => "could not derive a backup path for "@ + path,
        PkgErr::BackupAlreadyExists { path } => "backup already exists, restore it before stowing again: "@ + path,
        PkgErr::BackupPackageNotFound { path } => "package backup does not exist: "@ + path,
        PkgErr::BackupPackageEmpty { path } => "package backup is empty: "@ + path,
        PkgErr::InvalidBackupEntry { path } => "invalid file or directory in package backup: "@ + path,
        PkgErr::UnknownBackupVariable { path, variable } => "backup directory "@ + path + " references unknown path '"@ + variable + "'"@,
        PkgErr::BackupTargetNotInPackage { backup, target } => "backup "@ + backup + " maps to "@ + target + ", which is not managed by this package"@,
        PkgErr::DuplicateRestoreTarget { path } => "multiple backup files map to restore target "@ + path,
        PkgErr::RestoreTargetNotManaged { path } => "restore target is not managed by dtm, refusing to restore: "@ + path,
        PkgErr::TargetIsDirectory { path } => "target is a directory, refusing to replace it: "@ + path,
        PkgErr::UnknownTemplateVariable { path, variable } => "template "@ + path + " references unknown variable '"@ + variable + "'"@,
        PkgErr::UnmanagedTargets { paths } => "package has targets not managed by dtm: "@ + joined(paths, ", "@),
        PkgErr::ReadDirectory { path } => "could not read directory "@ + path + ": "@,
        PkgErr::ReadMetadata { path } => "could not inspect "@ + path + ": "@,
        PkgErr::ReadFile { path } => "could not read file "@ + path + ": "@,
        PkgErr::ReadLink { path } => "could not read link "@ + path + ": "@,
        PkgErr::CreateDirectory { path } => "could not create directory "@ + path + ": "@,
        PkgErr::WriteFile { path } => "could not write file "@ + path + ": "@,
        PkgErr::RemoveTarget { path } => "could not remove target "@ + path + ": "@,
        PkgErr::CreateBackupDirectory { path } => "could not create backup directory "@ + path + ": "@,
        PkgErr::RemoveBackupDirectory { path } => "could not remove restored backup directory "@ + path + ": "@,
        PkgErr::MoveToBackup { source, backup } => "could not move "@ + source + " to backup "@ + backup + ": "@,
        PkgErr::RestoreBackup { backup, target } => "could not restore backup "@ + backup + " to "@ + target + ": "@,
        PkgErr::CreateLink { source, target } => "could not link "@ + source + " to "@ + target + ": "@,
    }
}

/// A failure of a file-system call, whose message ends with the system's
/// wording of the error after the text of `package_message_spec`.
pub open spec fn system_worded(k: PkgErr) -> bool {
    ||| k is ReadDirectory
    ||| k is ReadMetadata
    ||| k is ReadFile
    ||| k is ReadLink
    ||| k is CreateDirectory
    ||| k is WriteFile
    ||| k is RemoveTarget
    ||| k is CreateBackupDirectory
    ||| k is RemoveBackupDirectory
    ||| k is MoveToBackup
    ||| k is RestoreBackup
    ||| k is CreateLink
}

impl PackageError {
    /// The text that reports the failure; for a failed file-system call it
    /// ends with the system's wording of the error.
    pub fn message(&self) -> (res: String)
        ensures
            package_message_spec(self.kind()).is_prefix_of(res@),
            !system_worded(self.kind()) ==> res@ == package_message_spec(self.kind()),
    {
        let res = match self {
            PackageError::InvalidName { name } => cat(cat(to_string("invalid package name '"), name.as_str()), "'"),
            PackageError::NotDirectory { path } => cat(to_string("package path is not a directory: "), path.as_str()),
            PackageError::MetadataNotDirectory { path } => cat(to_string("package metadata path must be a directory: "), path.as_str()),
            PackageError::UnexpectedRootEntry { path } => cat(to_string("package root only allows path directories and .dtm: "), path.as_str()),
            PackageError::UnknownVariableDirectory { path, variable } => cat(cat(cat(cat(to_string("package directory "), path.as_str()), " references unknown path '"), variable.as_str()), "'"),
            PackageError::RelativeVariablePath { variable, value } => cat(cat(cat(to_string("path '"), variable.as_str()), "' must resolve to an absolute path, got "), value.as_str()),
            PackageError::SymbolicLink { path } => cat(to_string("symbolic links are not supported in package sources: "), path.as_str()),
            PackageError::UnsupportedFileType { path } => cat(to_string("unsupported file type in package source: "), path.as_str()),
            PackageError::InvalidFileName { path } => cat(to_string("invalid template filename: "), path.as_str()),
            PackageError::TargetCollision { first, second, target } => cat(cat(cat(cat(cat(to_string("package files "), first.as_str()), " and "), second.as_str()), " both map to "), target.as_str()),
            PackageError::InvalidBackupTarget { path } => cat(to_string("could not derive a backup path for "), path.as_str()),
            PackageError::BackupAlreadyExists { path } => cat(to_string("backup already exists, restore it before stowing again: "), path.as_str()),
            PackageError::BackupPackageNotFound { path } => cat(to_string("package backup does not exist: "), path.as_str()),
            PackageError::BackupPackageEmpty { path } => cat(to_string("package backup is empty: "), path.as_str()),
            PackageError::InvalidBackupEntry { path } => cat(to_string("invalid file or directory in package backup: "), path.as_str()),
            PackageError::UnknownBackupVariable { path, variable } => cat(cat(cat(cat(to_string("backup directory "), path.as_str()), " references unknown path '"), variable.as_str()), "'"),
            PackageError::BackupTargetNotInPackage { backup, target } => cat(cat(cat(cat(to_string("backup "), backup.as_str()), " maps to "), target.as_str()), ", which is not managed by this package"),
            PackageError::DuplicateRestoreTarget { path } => cat(to_string("multiple backup files map to restore target "), path.as_str()),
            PackageError::RestoreTargetNotManaged { path } => cat(to_string("restore target is not managed by dtm, refusing to restore: "), path.as_str()),
            PackageError::TargetIsDirectory { path } => cat(to_string("target is a directory, refusing to replace it: "), path.as_str()),
            PackageError::UnknownTemplateVariable { path, variable } => cat(cat(cat(cat(to_string("template "), path.as_str()), " references unknown variable '"), variable.as_str()), "'"),
            PackageError::ReadDirectory { path, source } => cat(cat(cat(to_string("could not read directory "), path.as_str()), ": "), io_error_text(source).as_str()),
            PackageError::ReadMetadata { path, source } => cat(cat(cat(to_string("could not inspect "), path.as_str()), ": "), io_error_text(source).as_str()),
            PackageError::ReadFile { path, source } => cat(cat(cat(to_string("could not read file "), path.as_str()), ": "), io_error_text(source).as_str()),
            PackageError::ReadLink { path, source } => cat(cat(cat(to_string("could not read link "), path.as_str()), ": "), io_error_text(source).as_str()),
            PackageError::CreateDirectory { path, source } => cat(cat(cat(to_string("could not create directory "), path.as_str()), ": "), io_error_text(source).as_str()),
            PackageError::WriteFile { path, source } => cat(cat(cat(to_string("could not write file "), path.as_str()), ": "), io_error_text(source).as_str()),
            PackageError::RemoveTarget { path, source } => cat(cat(cat(to_string("could not remove target "), path.as_str()), ": "), io_error_text(source).as_str()),
            PackageError::CreateBackupDirectory { path, source } => cat(cat(cat(to_string("could not create backup directory "), path.as_str()), ": "), io_error_text(source).as_str()),
            PackageError::RemoveBackupDirectory { path, source } => cat(cat(cat(to_string("could not remove restored backup directory "), path.as_str()), ": "), io_error_text(source).as_str()),
            PackageError::MoveToBackup { source_path, backup, source } => cat(cat(cat(cat(cat(to_string("could not move "), source_path.as_str()), " to backup "), backup.as_str()), ": "), io_error_text(source).as_str()),
            PackageError::RestoreBackup { backup, target, source } => cat(cat(cat(cat(cat(to_string("could not restore backup "), backup.as_str()), " to "), target.as_str()), ": "), io_error_text(source).as_str()),
            PackageError::CreateLink { source, target, source_error } => cat(cat(cat(cat(cat(to_string("could not link "), source.as_str()), " to "), target.as_str()), ": "), io_error_text(source_error).as_str()),
            PackageError::UnmanagedTargets { paths } => cat(to_string("package has targets not managed by dtm: "), join_texts(paths, ", ").as_str()),
        };
        proof {
            let head = package_message_spec(self.kind());
            assert(head =~= res@.take(head.len() as int));
        }
        res
    }
}

pub open spec fn strings_view(v: Seq<String>) -> Seq<Seq<char>> {
    v.map_values(|s: String| s@)
}

impl PackageError {
    pub open spec fn kind(&self) -> PkgErr {
        match self {
            PackageError::InvalidName { name } => PkgErr::InvalidName { name: name@ },
            PackageError::NotDirectory { path } => PkgErr::NotDirectory { path: path@ },
            PackageError::MetadataNotDirectory { path } => PkgErr::MetadataNotDirectory {
                path: path@,
            },
            PackageError::UnexpectedRootEntry { path } => PkgErr::UnexpectedRootEntry {
                path: path@,
            },
            PackageError::UnknownVariableDirectory { path, variable } =>
                PkgErr::UnknownVariableDirectory { path: path@, variable: variable@ },
            PackageError::RelativeVariablePath { variable, value } =>
                PkgErr::RelativeVariablePath { variable: variable@, value: value@ },
            PackageError::SymbolicLink { path } => PkgErr::SymbolicLink { path: path@ },
            PackageError::UnsupportedFileType { path } => PkgErr::UnsupportedFileType {
                path: path@,
            },
            PackageError::InvalidFileName { path } => PkgErr::InvalidFileName { path: path@ },
            PackageError::TargetCollision { first, second, target } => PkgErr::TargetCollision {
                first: first@,
                second: second@,
                target: target@,
            },
            PackageError::InvalidBackupTarget { path } => PkgErr::InvalidBackupTarget {
                path: path@,
            },
            PackageError::BackupAlreadyExists { path } => PkgErr::BackupAlreadyExists {
                path: path@,
            },
            PackageError::BackupPackageNotFound { path } => PkgErr::BackupPackageNotFound {
                path: path@,
            },
            PackageError::BackupPackageEmpty { path } => PkgErr::BackupPackageEmpty {
                path: path@,
            },
            PackageError::InvalidBackupEntry { path } => PkgErr::InvalidBackupEntry {
                path: path@,
            },
            PackageError::UnknownBackupVariable { path, variable } =>
                PkgErr::UnknownBackupVariable { path: path@, variable: variable@ },
            PackageError::BackupTargetNotInPackage { backup, target } =>
                PkgErr::BackupTargetNotInPackage { backup: backup@, target: target@ },
            PackageError::DuplicateRestoreTarget { path } => PkgErr::DuplicateRestoreTarget {
                path: path@,
            },
            PackageError::UnmanagedTargets { paths } => PkgErr::UnmanagedTargets {
                paths: strings_view(paths@),
            },
            PackageError::RestoreTargetNotManaged { path } => PkgErr::RestoreTargetNotManaged {
                path: path@,
            },
            PackageError::TargetIsDirectory { path } => PkgErr::TargetIsDirectory {
                path: path@,
            },
            PackageError::UnknownTemplateVariable { path, variable } =>
                PkgErr::UnknownTemplateVariable { path: path@, variable: variable@ },
            PackageError::ReadDirectory { path, .. } => PkgErr::ReadDirectory { path: path@ },
            PackageError::ReadMetadata { path, .. } => PkgErr::ReadMetadata { path: path@ },
            PackageError::ReadFile { path, .. } => PkgErr::ReadFile { path: path@ },
            PackageError::ReadLink { path, .. } => PkgErr::ReadLink { path: path@ },
            PackageError::CreateDirectory { path, .. } => PkgErr::CreateDirectory { path: path@ },
            PackageError::WriteFile { path, .. } => PkgErr::WriteFile { path: path@ },
            PackageError::RemoveTarget { path, .. } => PkgErr::RemoveTarget { path: path@ },
            PackageError::CreateBackupDirectory { path, .. } => PkgErr::CreateBackupDirectory {
                path: path@,
            },
            PackageError::RemoveBackupDirectory { path, .. } => PkgErr::RemoveBackupDirectory {
                path: path@,
            },
            PackageError::MoveToBackup { source_path, backup, .. } => PkgErr::MoveToBackup {
                source: source_path@,
                backup: backup@,
            },
            PackageError::RestoreBackup { backup, target, .. } => PkgErr::RestoreBackup {
                backup: backup@,
                target: target@,
            },
            PackageError::CreateLink { source, target, .. } => PkgErr::CreateLink {
                source: source@,
                target: target@,
            },
        }
    }
}

// ---------------------------------------------------------------------------
// Package names and deployment names.
// ---------------------------------------------------------------------------
/// A package name is one ordinary path component: not empty, without a
/// separator, not `.` or `..`.
pub open spec fn valid_package_name(name: Seq<char>) -> bool {
    &&& name.len() > 0
    &&& !name.contains('/')
    &&& forall|i: int| 0 <= i < components(name).len() ==> components(name)[i] is Normal
}

/// Accepts a package name, or refuses it with `InvalidName`.
pub fn validate_package_name(name: &str) -> (res: Result<(), PackageError>)
    ensures
        valid_package_name(name@) <==> (res is Ok),
        res matches Err(e) ==> e.kind() == (PkgErr::InvalidName { name: name@ }),
{
    let chars = chars_of(name);
    let mut valid = chars.len() > 0;
    let mut i: usize = 0;
    while i < chars.len()
        invariant
            i <= chars@.len(),
            chars@ == name@,
            valid == (name@.len() > 0 && forall|j: int| 0 <= j < i ==> name@[j] != '/'),
        decreases chars@.len() - i,
    {
        if chars[i] == '/' {
            valid = false;
        }
        i += 1;
    }
    assert(valid == (name@.len() > 0 && !name@.contains('/')));
    let parts = path_components(name);
    let mut k: usize = 0;
    while k < parts.len()
        invariant
            k <= parts@.len(),
            comps_view(parts@) == components(name@),
            valid == (name@.len() > 0 && !name@.contains('/') && forall|j: int|
                0 <= j < k ==> components(name@)[j] is Normal),
        decreases parts@.len() - k,
    {
        match &parts[k] {
            Component::Normal(_) => {},
            _ => {
                valid = false;
            },
        }
        assert(comps_view(parts@)[k as int] == parts@[k as int].view());
        k += 1;
    }
    if valid {
        Ok(())
    } else {
        Err(PackageError::InvalidName { name: crate::text::to_string(name) })
    }
}

pub open spec fn tmpl_marker() -> Seq<char> {
    seq!['.', 't', 'm', 'p', 'l']
}

pub open spec fn dot_prefix() -> Seq<char> {
    seq!['d', 'o', 't', '-']
}

/// The last position at or before `i` where `p` occurs in `s`.
pub open spec fn rfind_from(s: Seq<char>, p: Seq<char>, i: int) -> Option<int>
    decreases i + 1,
{
    if i < 0 {
        None
    } else if occurs_at(s, i, p) {
        Some(i)
    } else {
        rfind_from(s, p, i - 1)
    }
}

/// The last position where `p` occurs in `s` (`str::rfind`).
pub open spec fn rfind(s: Seq<char>, p: Seq<char>) -> Option<int> {
    rfind_from(s, p, s.len() - p.len())
}

/// `dot-name` stands for `.name`.
pub open spec fn undot(name: Seq<char>) -> Seq<char> {
    if starts_with(name, dot_prefix()) && name.len() > dot_prefix().len() {
        seq!['.'] + name.skip(4)
    } else {
        name
    }
}

/// How a package file named `name` is deployed and under which name: the
/// last `.tmpl` is removed and makes it a template (a file named `.tmpl`
/// alone stays a link); then `dot-` stands for `.`.
pub open spec fn deployment_spec(name: Seq<char>) -> (EntryKind, Seq<char>) {
    let (kind, base) = match rfind(name, tmpl_marker()) {
        Some(p) => if name == tmpl_marker() {
            (EntryKind::Symlink, name)
        } else {
            (EntryKind::Template, name.take(p) + name.skip(p + 5))
        },
        None => (EntryKind::Symlink, name),
    };
    (kind, undot(base))
}

fn rfind_chars(s: &[char], p: &[char]) -> (res: Option<usize>)
    ensures
        match res {
            Some(k) => rfind(s@, p@) == Some(k as int) && k + p@.len() <= s@.len(),
            None => rfind(s@, p@) is None,
        },
{
    if p.len() > s.len() {
        return None;
    }
    let mut i = s.len() - p.len();
    loop
        invariant
            i + p@.len() <= s@.len(),
            rfind(s@, p@) == rfind_from(s@, p@, i as int),
        decreases i,
    {
        if crate::text::matches_at(s, i, p) {
            return Some(i);
        }
        if i == 0 {
            assert(rfind_from(s@, p@, -1) is None);
            return None;
        }
        i -= 1;
    }
}

/// The deployed kind and name of the package file `name`.
pub fn deployment_name(name: &str) -> (res: Option<(EntryKind, String)>)
    ensures
        res matches Some((k, n)) && (k, n@) == deployment_spec(name@),
{
    let chars = chars_of(name);
    let marker = vec!['.', 't', 'm', 'p', 'l'];
    assert(marker@ =~= tmpl_marker());
    let (kind, base): (EntryKind, Vec<char>) = match rfind_chars(chars.as_slice(), marker.as_slice()) {
        Some(p) => {
            if crate::text::chars_equal(chars.as_slice(), marker.as_slice()) {
                (EntryKind::Symlink, chars)
            } else {
                let n = chars.len();
                assert(p + marker@.len() <= n);
                let mut base = chars_range(chars.as_slice(), 0, p);
                let rest = chars_range(chars.as_slice(), p + 5, n);
                let ghost head = base@;
                let mut j: usize = 0;
                while j < rest.len()
                    invariant
                        j <= rest@.len(),
                        base@ == head + rest@.take(j as int),
                    decreases rest@.len() - j,
                {
                    base.push(rest[j]);
                    assert(rest@.take(j + 1) =~= rest@.take(j as int).push(rest@[j as int]));
                    j += 1;
                }
                assert(rest@.take(rest@.len() as int) =~= rest@);
                assert(base@ =~= name@.take(p as int) + name@.skip(p + 5));
                (EntryKind::Template, base)
            }
        },
        None => (EntryKind::Symlink, chars),
    };
    let prefix = vec!['d', 'o', 't', '-'];
    assert(prefix@ =~= dot_prefix());
    if starts_with_chars(base.as_slice(), prefix.as_slice()) && base.len() > 4 {
        let mut out = vec!['.'];
        let rest = chars_range(base.as_slice(), 4, base.len());
        let ghost head = out@;
        let mut j: usize = 0;
        while j < rest.len()
            invariant
                j <= rest@.len(),
                out@ == head + rest@.take(j as int),
            decreases rest@.len() - j,
        {
            out.push(rest[j]);
            assert(rest@.take(j + 1) =~= rest@.take(j as int).push(rest@[j as int]));
            j += 1;
        }
        assert(rest@.take(rest@.len() as int) =~= rest@);
        assert(out@ =~= seq!['.'] + base@.skip(4));
        Some((kind, string_of(out.as_slice())))
    } else {
        Some((kind, string_of(base.as_slice())))
    }
}

// ---------------------------------------------------------------------------
// Templates.
// ---------------------------------------------------------------------------
pub open spec fn open_marker() -> Seq<char> {
    seq!['{', '=']
}

pub open spec fn close_marker() -> Seq<char> {
    seq!['=', '}']
}

/// The text that a marker naming `name` becomes: an empty name or one that
/// spans lines keeps the marker as written (`written`); otherwise the
/// value of the trimmed name, or that name as unknown.
pub open spec fn marker_text(
    name: Seq<char>,
    written: Seq<char>,
    values: Map<Seq<char>, Seq<char>>,
) -> Result<Seq<char>, Seq<char>> {
    if name.len() == 0 || name.contains('\r') || name.contains('\n') {
        Ok(written)
    } else if values.contains_key(trim(name)) {
        Ok(values[trim(name)])
    } else {
        Err(trim(name))
    }
}

/// `c` with every marker `{=name=}` replaced by the value of `name`; a
/// marker that is not closed is kept with the rest of the text. The error
/// is the first name without a value.
#[verifier::opaque]
pub open spec fn render_spec(c: Seq<char>, values: Map<Seq<char>, Seq<char>>) -> Result<
    Seq<char>,
    Seq<char>,
>
    decreases c.len(),
{
    match find(c, open_marker()) {
        None => Ok(c),
        Some(start) => {
            let marker = c.skip(start + 2);
            match find(marker, close_marker()) {
                None => Ok(c),
                Some(end) => if start < 0 || start + 2 > c.len() || end < 0 || end + 2
                    > marker.len() {
                    Ok(c)
                } else {
                    match marker_text(
                        marker.take(end),
                        c.subrange(start, start + end + 4),
                        values,
                    ) {
                        Err(n) => Err(n),
                        Ok(piece) => match render_spec(marker.skip(end + 2), values) {
                            Err(n) => Err(n),
                            Ok(rest) => Ok(c.take(start) + piece + rest),
                        },
                    }
                },
            }
        },
    }
}

fn push_chars(out: &mut Vec<char>, t: &[char])
    ensures
        final(out)@ == old(out)@ + t@,
{
    let ghost start = out@;
    let mut i: usize = 0;
    while i < t.len()
        invariant
            i <= t@.len(),
            out@ == start + t@.take(i as int),
        decreases t@.len() - i,
    {
        out.push(t[i]);
        assert(t@.take(i + 1) =~= t@.take(i as int).push(t@[i as int]));
        i += 1;
    }
    assert(t@.take(t@.len() as int) =~= t@);
}

/// One marker of the template, found from `pos`: the text before it, what it
/// becomes, and the rest.
proof fn lemma_render_unfold(
    c: Seq<char>,
    pos: int,
    start: int,
    end: int,
    values: Map<Seq<char>, Seq<char>>,
)
    requires
        0 <= pos <= start,
        start + 2 <= end,
        end + 2 <= c.len(),
        find_from(c, open_marker(), pos) == Some(start),
        find_from(c, close_marker(), start + 2) == Some(end),
    ensures
        render_spec(c.skip(pos), values) == match marker_text(
            c.subrange(start + 2, end),
            c.subrange(start, end + 2),
            values,
        ) {
            Err(n) => Err(n),
            Ok(piece) => match render_spec(c.skip(end + 2), values) {
                Err(n) => Err(n),
                Ok(r) => Ok(c.subrange(pos, start) + piece + r),
            },
        },
{
    reveal(render_spec);
    let rest = c.skip(pos);
    crate::text::lemma_find_shift(c, open_marker(), pos);
    assert(find(rest, open_marker()) == Some(start - pos));
    let marker = rest.skip(start - pos + 2);
    assert(marker =~= c.skip(start + 2));
    crate::text::lemma_find_shift(c, close_marker(), start + 2);
    assert(find(marker, close_marker()) == Some(end - start - 2));
    assert(marker.take(end - start - 2) =~= c.subrange(start + 2, end));
    assert(rest.subrange(start - pos, start - pos + (end - start - 2) + 4) =~= c.subrange(
        start,
        end + 2,
    ));
    assert(marker.skip(end - start - 2 + 2) =~= c.skip(end + 2));
    assert(rest.take(start - pos) =~= c.subrange(pos, start));
}

/// Without a marker from `pos`, the rest of the template is kept.
proof fn lemma_render_no_marker(c: Seq<char>, pos: int, values: Map<Seq<char>, Seq<char>>)
    requires
        0 <= pos <= c.len(),
        find_from(c, open_marker(), pos) is None,
    ensures
        render_spec(c.skip(pos), values) == Ok::<Seq<char>, Seq<char>>(c.skip(pos)),
{
    reveal(render_spec);
    crate::text::lemma_find_shift(c, open_marker(), pos);
}

/// A marker that is not closed keeps the rest of the template.
proof fn lemma_render_unclosed(
    c: Seq<char>,
    pos: int,
    start: int,
    values: Map<Seq<char>, Seq<char>>,
)
    requires
        0 <= pos <= start,
        start + 2 <= c.len(),
        find_from(c, open_marker(), pos) == Some(start),
        find_from(c, close_marker(), start + 2) is None,
    ensures
        render_spec(c.skip(pos), values) == Ok::<Seq<char>, Seq<char>>(c.skip(pos)),
{
    reveal(render_spec);
    let rest = c.skip(pos);
    crate::text::lemma_find_shift(c, open_marker(), pos);
    assert(rest.skip(start - pos + 2) =~= c.skip(start + 2));
    crate::text::lemma_find_shift(c, close_marker(), start + 2);
}

/// The text that the marker with name `name` becomes.
fn marker_value(name: &[char], written: &[char], template_values: &Values) -> (res: Result<
    Vec<char>,
    String,
>)
    ensures
        match marker_text(name@, written@, template_values.map()) {
            Ok(t) => res matches Ok(x) && x@ == t,
            Err(n) => res matches Err(x) && x@ == n,
        },
{
    let mut line_break = false;
    let mut k: usize = 0;
    while k < name.len()
        invariant
            k <= name@.len(),
            line_break == exists|j: int| 0 <= j < k && (name@[j] == '\r' || name@[j] == '\n'),
        decreases name@.len() - k,
    {
        if name[k] == '\r' || name[k] == '\n' {
            line_break = true;
        }
        k += 1;
    }
    assert(line_break == (name@.contains('\r') || name@.contains('\n')));
    if name.len() == 0 || line_break {
        return Ok(chars_range(written, 0, written.len()));
    }
    let (a, b) = trim_range(name);
    let trimmed = string_of(chars_range(name, a, b).as_slice());
    match template_values.get(trimmed.as_str()) {
        Some(v) => Ok(chars_of(v.as_str())),
        None => Err(trimmed),
    }
}

/// Renders the template `contents`, read from the package file `source`.
pub fn render_template(source: &str, contents: &str, template_values: &Values) -> (res: Result<
    String,
    PackageError,
>)
    ensures
        match render_spec(contents@, template_values.map()) {
            Ok(r) => res matches Ok(x) && x@ == r,
            Err(n) => res matches Err(e) && e.kind() == (PkgErr::UnknownTemplateVariable {
                path: source@,
                variable: n,
            }),
        },
{
    let c = chars_of(contents);
    let open = vec!['{', '='];
    let close = vec!['=', '}'];
    assert(open@ =~= open_marker());
    assert(close@ =~= close_marker());
    let mut out: Vec<char> = Vec::new();
    let mut pos: usize = 0;
    let clen = c.len();
    let ghost whole = render_spec(c@, template_values.map());
    assert(c@.skip(0) =~= c@);
    loop
        invariant_except_break
            whole == match render_spec(c@.skip(pos as int), template_values.map()) {
                Ok(r) => Ok(out@ + r),
                Err(n) => Err::<Seq<char>, Seq<char>>(n),
            },
        invariant
            pos <= c@.len(),
            clen == c@.len(),
            c@ == contents@,
            open@ == open_marker(),
            close@ == close_marker(),
            whole == render_spec(contents@, template_values.map()),
        ensures
            whole == Ok::<Seq<char>, Seq<char>>(out@),
        decreases c@.len() - pos,
    {
        let found = find_chars(c.as_slice(), open.as_slice(), pos);
        proof {
            lemma_find_from_bounds(c@, open_marker(), pos as int);
        }
        let start = match found {
            None => {
                proof {
                    lemma_render_no_marker(c@, pos as int, template_values.map());
                }
                let tail = chars_range(c.as_slice(), pos, clen);
                assert(tail@ =~= c@.skip(pos as int));
                push_chars(&mut out, tail.as_slice());
                break;
            },
            Some(s) => s,
        };
        assert(start + 2 <= clen);
        let inner = start + 2;
        let close_found = find_chars(c.as_slice(), close.as_slice(), inner);
        proof {
            lemma_find_from_bounds(c@, close_marker(), inner as int);
        }
        let end = match close_found {
            None => {
                proof {
                    lemma_render_unclosed(c@, pos as int, start as int, template_values.map());
                }
                let tail = chars_range(c.as_slice(), pos, clen);
                assert(tail@ =~= c@.skip(pos as int));
                push_chars(&mut out, tail.as_slice());
                break;
            },
            Some(e) => e,
        };
        assert(end + 2 <= clen);
        proof {
            lemma_render_unfold(c@, pos as int, start as int, end as int, template_values.map());
        }
        let name = chars_range(c.as_slice(), inner, end);
        let written = chars_range(c.as_slice(), start, end + 2);
        let before = chars_range(c.as_slice(), pos, start);
        match marker_value(name.as_slice(), written.as_slice(), template_values) {
            Ok(piece) => {
                let ghost old_out = out@;
                push_chars(&mut out, before.as_slice());
                push_chars(&mut out, piece.as_slice());
                proof {
                    let v = template_values.map();
                    assert(marker_text(name@, written@, v) == Ok::<Seq<char>, Seq<char>>(piece@));
                    match render_spec(c@.skip(end + 2), v) {
                        Ok(r) => {
                            assert(old_out + (before@ + piece@ + r) =~= out@ + r);
                        },
                        Err(n) => {},
                    }
                }
            },
            Err(variable) => {
                return Err(
                    PackageError::UnknownTemplateVariable {
                        path: crate::text::to_string(source),
                        variable,
                    },
                );
            },
        }
        pos = end + 2;
    }
    Ok(string_of(out.as_slice()))
}

// ---------------------------------------------------------------------------
// Targets.
// ---------------------------------------------------------------------------
/// The kind of a file, as `symlink_metadata` reports it.
#[derive(Debug, Clone, Copy, PartialEq, Eq, Structural)]
pub enum FileKind {
    Directory,
    File,
    Symlink,
    Other,
}

/// What stands at a target path.
#[derive(Debug, PartialEq, Eq)]
pub enum TargetState {
    Missing,
    Directory,
    /// A symbolic link, with its destination when that was read.
    Symlink(Option<String>),
    /// A regular file, with its text when that was read and is UTF-8.
    File(Option<String>),
    /// Another kind of file.
    Other,
}

/// What must be read at a target to tell whether it is the entry.
#[derive(Debug, Clone, Copy, PartialEq, Eq, Structural)]
pub enum TargetRead {
    Nothing,
    Link,
    Contents,
}

/// A link entry reads the destination of a link; a template entry reads the
/// text of a regular file.
pub fn target_read(kind: EntryKind, found: FileKind) -> (res: TargetRead)
    ensures
        res == (match (kind, found) {
            (EntryKind::Symlink, FileKind::Symlink) => TargetRead::Link,
            (EntryKind::Template, FileKind::File) => TargetRead::Contents,
            _ => TargetRead::Nothing,
        }),
{
    match (kind, found) {
        (EntryKind::Symlink, FileKind::Symlink) => TargetRead::Link,
        (EntryKind::Template, FileKind::File) => TargetRead::Contents,
        _ => TargetRead::Nothing,
    }
}

pub open spec fn opt_str(o: Option<&str>) -> Option<Seq<char>> {
    match o {
        Some(s) => Some(s@),
        None => None,
    }
}

/// The target already is the entry: a link entry's target is a link to the
/// package file; a template entry's target is a regular file holding the
/// rendered text.
pub open spec fn is_current_spec(entry: EntryView, rendered: Option<Seq<char>>, target: TargetState) -> bool {
    match entry.kind {
        EntryKind::Symlink => match target {
            TargetState::Symlink(Some(link)) => path_eq(link@, entry.source),
            _ => false,
        },
        EntryKind::Template => match (rendered, target) {
            (Some(r), TargetState::File(Some(text))) => text@ == r,
            _ => false,
        },
    }
}

/// Whether the target already is the entry.
pub fn target_is_current_entry(entry: &PackageEntry, rendered: Option<&str>, target: &TargetState) -> (res: bool)
    ensures
        res == is_current_spec(entry@, opt_str(rendered), *target),
{
    match entry.kind {
        EntryKind::Symlink => match target {
            TargetState::Symlink(Some(link)) => path_equal(link.as_str(), entry.source.as_str()),
            _ => false,
        },
        EntryKind::Template => match (rendered, target) {
            (Some(r), TargetState::File(Some(text))) => crate::text::str_equal(text.as_str(), r),
            _ => false,
        },
    }
}

// ---------------------------------------------------------------------------
// Backup paths.
// ---------------------------------------------------------------------------
/// A configured path can hold `target`: it is absolute and `target` lies
/// under it.
pub open spec fn holds_target(target: Seq<char>, root: Seq<char>) -> bool {
    is_absolute(root) && crate::path::path_starts_with(target, root)
}

pub open spec fn depth(p: Seq<char>) -> int {
    components(p).len() as int
}

/// `name` is the nearest configured path of `target`: the one with the most
/// components that holds it, the smallest name among equals.
pub open spec fn is_nearest(target: Seq<char>, m: Map<Seq<char>, Seq<char>>, name: Seq<char>) -> bool {
    &&& m.contains_key(name)
    &&& holds_target(target, m[name])
    &&& forall|n: Seq<char>|
        #![trigger m[n]]
        m.contains_key(n) && holds_target(target, m[n]) ==> depth(m[n]) < depth(m[name]) || (
        depth(m[n]) == depth(m[name]) && !text_lt(n, name))
}

/// The nearest configured path of `target` and the rest of `target` below it.
pub open spec fn nearest_spec(target: Seq<char>, m: Map<Seq<char>, Seq<char>>) -> Option<
    (Seq<char>, Seq<char>),
> {
    if exists|n: Seq<char>| is_nearest(target, m, n) {
        let n = choose|n: Seq<char>| is_nearest(target, m, n);
        Some((n, crate::path::strip_prefix(target, m[n])->Some_0))
    } else {
        None
    }
}

/// There is at most one nearest path.
pub proof fn lemma_nearest_unique(target: Seq<char>, m: Map<Seq<char>, Seq<char>>, a: Seq<char>, b: Seq<char>)
    requires
        is_nearest(target, m, a),
        is_nearest(target, m, b),
    ensures
        a == b,
{
    assert(m[b] == m[b]);
    assert(m[a] == m[a]);
    crate::text::lemma_text_lt_total(a, b);
}

/// The configured path nearest to `target`, with the rest of `target` below
/// it.
pub fn nearest_path_target(target: &str, paths: &Values) -> (res: Option<(String, String)>)
    ensures
        match nearest_spec(target@, paths.map()) {
            Some((n, r)) => res matches Some((x, y)) && x@ == n && y@ == r,
            None => res is None,
        },
{
    proof {
        use_type_invariant(paths);
    }
    let ghost m = paths.map();
    let ghost pairs = paths.pairs();
    let mut best: Option<(usize, usize)> = None;
    let mut i: usize = 0;
    while i < paths.len()
        invariant
            i <= pairs.len(),
            m == paths.map(),
            pairs == paths.pairs(),
            paths.ordered(),
            match best {
                None => forall|j: int| 0 <= j < i ==> !holds_target(target@, #[trigger] pairs[j].1),
                Some((b, d)) => b < i && holds_target(target@, pairs[b as int].1) && d == depth(
                    pairs[b as int].1,
                ) && forall|j: int|
                    0 <= j < i && holds_target(target@, #[trigger] pairs[j].1) ==> depth(pairs[j].1)
                        < d || (depth(pairs[j].1) == d && j >= b),
            },
        decreases pairs.len() - i,
    {
        let value = paths.value_at(i);
        if path_is_absolute(value.as_str()) && crate::path::path_starts_with_exec(target, value.as_str()) {
            let d = crate::path::component_count(value.as_str());
            match best {
                None => {
                    best = Some((i, d));
                },
                Some((b, bd)) => {
                    if d > bd {
                        best = Some((i, d));
                    }
                },
            }
        }
        i += 1;
    }
    match best {
        None => {
            proof {
                if exists|n: Seq<char>| is_nearest(target@, m, n) {
                    let n = choose|n: Seq<char>| is_nearest(target@, m, n);
                    paths.lemma_key(n);
                    let j = choose|j: int| 0 <= j < pairs.len() && #[trigger] pairs[j].0 == n;
                    paths.lemma_entry(j);
                    assert(holds_target(target@, pairs[j].1));
                }
            }
            None
        },
        Some((b, d)) => {
            let name = paths.key_at(b).clone();
            let value = paths.value_at(b);
            let rest = crate::path::path_strip_prefix(target, value.as_str());
            proof {
                paths.lemma_entry(b as int);
                let n = pairs[b as int].0;
                assert forall|k: Seq<char>| #![trigger m[k]]
                    m.contains_key(k) && holds_target(target@, m[k]) implies depth(m[k]) < depth(m[n])
                        || (depth(m[k]) == depth(m[n]) && !text_lt(k, n)) by {
                    paths.lemma_key(k);
                    let j = choose|j: int| 0 <= j < pairs.len() && #[trigger] pairs[j].0 == k;
                    paths.lemma_entry(j);
                    assert(holds_target(target@, pairs[j].1));
                    if depth(m[k]) == depth(m[n]) {
                        assert(j >= b);
                        if j > b {
                            assert(text_lt(pairs[b as int].0, pairs[j].0));
                            crate::text::lemma_text_lt_asymmetric(n, k);
                        } else {
                            crate::text::lemma_text_lt_irreflexive(n);
                        }
                    }
                }
                assert(is_nearest(target@, m, n));
                let c = choose|c: Seq<char>| is_nearest(target@, m, c);
                lemma_nearest_unique(target@, m, n, c);
            }
            match rest {
                Some(r) => Some((name, r)),
                None => {
                    proof {
                        assert(false);
                    }
                    None
                },
            }
        },
    }
}

/// The name of a backup file for a target file named `name` (`.x` becomes
/// `dot-x`), or the other way (`dot-x` becomes `.x`).
pub open spec fn backup_name(name: Seq<char>, reverse: bool) -> Seq<char> {
    if reverse {
        if name.len() > 1 && name[0] == '.' {
            dot_prefix() + name.skip(1)
        } else {
            name
        }
    } else {
        undot(name)
    }
}

/// `base` followed by `names`, one component each.
pub open spec fn join_names(base: Seq<char>, names: Seq<Seq<char>>) -> Seq<char>
    decreases names.len(),
{
    if names.len() == 0 {
        base
    } else {
        join(join_names(base, names.drop_last()), names.last())
    }
}

pub open spec fn all_normal(cs: Seq<Comp>) -> bool {
    forall|i: int| 0 <= i < cs.len() ==> (#[trigger] cs[i]) is Normal
}

/// The names of the backup path of the relative path `path` (or the other
/// way), component by component; the path must be made of ordinary
/// components and not be empty.
pub open spec fn map_backup_spec(path: Seq<char>, reverse: bool) -> Option<Seq<char>> {
    let cs = components(path);
    if cs.len() == 0 || !all_normal(cs) {
        None
    } else {
        Some(join_names(Seq::empty(), cs.map_values(|c: Comp| backup_name(c->Normal_0, reverse))))
    }
}

fn backup_name_exec(name: &str, reverse: bool) -> (res: String)
    ensures
        res@ == backup_name(name@, reverse),
{
    let chars = chars_of(name);
    if reverse {
        if chars.len() > 1 && chars[0] == '.' {
            let mut out = vec!['d', 'o', 't', '-'];
            let rest = chars_range(chars.as_slice(), 1, chars.len());
            push_chars(&mut out, rest.as_slice());
            assert(out@ =~= dot_prefix() + name@.skip(1));
            string_of(out.as_slice())
        } else {
            crate::text::to_string(name)
        }
    } else {
        match deployment_undot(chars.as_slice()) {
            out => string_of(out.as_slice()),
        }
    }
}

/// `undot` on characters.
fn deployment_undot(name: &[char]) -> (res: Vec<char>)
    ensures
        res@ == undot(name@),
{
    let prefix = vec!['d', 'o', 't', '-'];
    assert(prefix@ =~= dot_prefix());
    if starts_with_chars(name, prefix.as_slice()) && name.len() > 4 {
        let mut out = vec!['.'];
        let rest = chars_range(name, 4, name.len());
        push_chars(&mut out, rest.as_slice());
        assert(out@ =~= seq!['.'] + name@.skip(4));
        out
    } else {
        chars_range(name, 0, name.len())
    }
}

/// Maps a relative path to its backup path (`reverse`) or back.
pub fn map_backup_path(path: &str, reverse: bool) -> (res: Result<String, PackageError>)
    ensures
        match map_backup_spec(path@, reverse) {
            Some(p) => res matches Ok(x) && x@ == p,
            None => res matches Err(e) && e.kind() == (PkgErr::InvalidBackupTarget { path: path@ }),
        },
{
    let parts = path_components(path);
    let ghost cs = components(path@);
    let ghost names = cs.map_values(|c: Comp| backup_name(c->Normal_0, reverse));
    let mut mapped = String::new();
    let mut i: usize = 0;
    assert(names.take(0) =~= Seq::<Seq<char>>::empty());
    while i < parts.len()
        invariant
            i <= parts@.len(),
            comps_view(parts@) == cs,
            cs == components(path@),
            names == cs.map_values(|c: Comp| backup_name(c->Normal_0, reverse)),
            forall|j: int| 0 <= j < i ==> (#[trigger] cs[j]) is Normal,
            mapped@ == join_names(Seq::empty(), names.take(i as int)),
        decreases parts@.len() - i,
    {
        assert(cs[i as int] == parts@[i as int].view());
        match &parts[i] {
            Component::Normal(name) => {
                let m = backup_name_exec(name.as_str(), reverse);
                mapped = path_join(mapped.as_str(), m.as_str());
                assert(names.take(i + 1).drop_last() =~= names.take(i as int));
            },
            _ => {
                return Err(PackageError::InvalidBackupTarget { path: crate::text::to_string(path) });
            },
        }
        i += 1;
    }
    if parts.len() == 0 {
        return Err(PackageError::InvalidBackupTarget { path: crate::text::to_string(path) });
    }
    assert(names.take(i as int) =~= names);
    Ok(mapped)
}

/// The backup path of a target path.
pub fn reverse_backup_path(path: &str) -> (res: Result<String, PackageError>)
    ensures
        match map_backup_spec(path@, true) {
            Some(p) => res matches Ok(x) && x@ == p,
            None => res matches Err(e) && e.kind() == (PkgErr::InvalidBackupTarget { path: path@ }),
        },
{
    map_backup_path(path, true)
}

/// The target path of a backup path.
pub fn restore_backup_path(path: &str) -> (res: Result<String, PackageError>)
    ensures
        match map_backup_spec(path@, false) {
            Some(p) => res matches Ok(x) && x@ == p,
            None => res matches Err(e) && e.kind() == (PkgErr::InvalidBackupTarget { path: path@ }),
        },
{
    map_backup_path(path, false)
}

// ---------------------------------------------------------------------------
// Loading a package.
// ---------------------------------------------------------------------------
/// A package: its name, its directory and its files, ordered by target.
#[derive(Debug, PartialEq, Eq)]
pub struct PackagePlan {
    pub name: String,
    pub root: String,
    pub entries: Vec<PackageEntry>,
}

/// A file or directory below a path directory of a package, with the
/// names of the components from that directory to it.
#[derive(Debug)]
pub struct SourceItem {
    pub path: String,
    pub names: Vec<String>,
    /// Its own name is valid Unicode.
    pub unicode: bool,
    pub kind: FileKind,
}

/// An entry of a package directory, with everything below it when it is a
/// directory, in the order the directories were read (a directory before
/// what it holds).
#[derive(Debug)]
pub struct RootItem {
    pub name: String,
    pub path: String,
    pub kind: FileKind,
    pub items: Vec<SourceItem>,
}

/// What was read of a package directory: its kind, its canonical path and
/// its entries in the order they were read.
#[derive(Debug)]
pub struct PackageListing {
    pub root_kind: FileKind,
    pub root: String,
    pub entries: Vec<RootItem>,
}

pub open spec fn metadata_name() -> Seq<char> {
    seq!['.', 'd', 't', 'm']
}

pub open spec fn item_name(names: Seq<Seq<char>>) -> Seq<char> {
    if names.len() > 0 {
        names.last()
    } else {
        Seq::empty()
    }
}

/// Where the item with the component names `names` below a path directory
/// deployed at `root` is deployed.
pub open spec fn deployed_target(root: Seq<char>, names: Seq<Seq<char>>) -> Seq<char> {
    join_names(root, names.map_values(|n: Seq<char>| deployment_spec(n).1))
}

/// The entries of the items from `i`: a name that is not Unicode, a link or
/// a special file is refused; directories are passed over.
pub open spec fn scan_items(items: Seq<SourceItem>, root: Seq<char>, i: int, acc: Seq<EntryView>) -> Result<
    Seq<EntryView>,
    PkgErr,
>
    decreases items.len() - i,
{
    if i < 0 || i >= items.len() {
        Ok(acc)
    } else {
        let item = items[i];
        let names = strings_view(item.names@);
        if !item.unicode {
            Err(PkgErr::InvalidFileName { path: item.path@ })
        } else {
            match item.kind {
                FileKind::Symlink => Err(PkgErr::SymbolicLink { path: item.path@ }),
                FileKind::Directory => scan_items(items, root, i + 1, acc),
                FileKind::Other => Err(PkgErr::UnsupportedFileType { path: item.path@ }),
                FileKind::File => scan_items(
                    items,
                    root,
                    i + 1,
                    acc.push(
                        EntryView {
                            source: item.path@,
                            target: deployed_target(root, names),
                            kind: deployment_spec(item_name(names)).0,
                        },
                    ),
                ),
            }
        }
    }
}

/// The entries of the package directory's entries from `i`: the metadata
/// directory `.dtm` is passed over; every other entry must be a directory
/// named after a configured absolute path.
pub open spec fn scan_roots(roots: Seq<RootItem>, m: Map<Seq<char>, Seq<char>>, i: int, acc: Seq<EntryView>) -> Result<
    Seq<EntryView>,
    PkgErr,
>
    decreases roots.len() - i,
{
    if i < 0 || i >= roots.len() {
        Ok(acc)
    } else {
        let r = roots[i];
        if r.name@ == metadata_name() {
            if r.kind != FileKind::Directory {
                Err(PkgErr::MetadataNotDirectory { path: r.path@ })
            } else {
                scan_roots(roots, m, i + 1, acc)
            }
        } else if r.kind != FileKind::Directory {
            Err(PkgErr::UnexpectedRootEntry { path: r.path@ })
        } else if !m.contains_key(r.name@) {
            Err(PkgErr::UnknownVariableDirectory { path: r.path@, variable: r.name@ })
        } else if !is_absolute(m[r.name@]) {
            Err(PkgErr::RelativeVariablePath { variable: r.name@, value: m[r.name@] })
        } else {
            match scan_items(r.items@, m[r.name@], 0, acc) {
                Err(e) => Err(e),
                Ok(next) => scan_roots(roots, m, i + 1, next),
            }
        }
    }
}

/// The first index at or after `i` where an entry goes before `x` by target.
pub open spec fn first_after(s: Seq<EntryView>, t: Seq<char>, i: int) -> int
    decreases s.len() - i,
{
    if i < 0 || i >= s.len() {
        s.len() as int
    } else if path_lt(t, s[i].target) {
        i
    } else {
        first_after(s, t, i + 1)
    }
}

/// The entries ordered by target, entries with equal targets keeping their
/// order (a stable sort).
pub open spec fn sort_by_target(s: Seq<EntryView>) -> Seq<EntryView>
    decreases s.len(),
{
    if s.len() == 0 {
        s
    } else {
        let sorted = sort_by_target(s.drop_last());
        sorted.insert(first_after(sorted, s.last().target, 0), s.last())
    }
}

/// The first index at or after `i` whose entry has the target of the next
/// one.
pub open spec fn first_collision(s: Seq<EntryView>, i: int) -> Option<int>
    decreases s.len() - i,
{
    if i < 0 || i + 1 >= s.len() {
        None
    } else if path_eq(s[i].target, s[i + 1].target) {
        Some(i)
    } else {
        first_collision(s, i + 1)
    }
}

/// Loading the package `name` from `pkgs_dir`: its entries ordered by
/// target, or why it is refused.
pub open spec fn load_spec(
    pkgs_dir: Seq<char>,
    name: Seq<char>,
    m: Map<Seq<char>, Seq<char>>,
    listing: &PackageListing,
) -> Result<Seq<EntryView>, PkgErr> {
    if !valid_package_name(name) {
        Err(PkgErr::InvalidName { name })
    } else if listing.root_kind != FileKind::Directory {
        Err(PkgErr::NotDirectory { path: join(pkgs_dir, name) })
    } else {
        match scan_roots(listing.entries@, m, 0, Seq::empty()) {
            Err(e) => Err(e),
            Ok(found) => {
                let sorted = sort_by_target(found);
                match first_collision(sorted, 0) {
                    Some(i) => Err(
                        PkgErr::TargetCollision {
                            first: sorted[i].source,
                            second: sorted[i + 1].source,
                            target: sorted[i].target,
                        },
                    ),
                    None => Ok(sorted),
                }
            },
        }
    }
}

fn deployed_name_of(name: &str) -> (res: (EntryKind, String))
    ensures
        (res.0, res.1@) == deployment_spec(name@),
{
    match deployment_name(name) {
        Some(r) => r,
        None => {
            proof {
                assert(false);
            }
            (EntryKind::Symlink, String::new())
        },
    }
}

/// Where an item is deployed, below the path directory deployed at `root`.
fn deployed_target_exec(root: &str, names: &Vec<String>) -> (res: String)
    ensures
        res@ == deployed_target(root@, strings_view(names@)),
{
    let ghost mapped = strings_view(names@).map_values(|n: Seq<char>| deployment_spec(n).1);
    let mut target = crate::text::to_string(root);
    let mut i: usize = 0;
    assert(mapped.take(0) =~= Seq::<Seq<char>>::empty());
    while i < names.len()
        invariant
            i <= names@.len(),
            mapped == strings_view(names@).map_values(|n: Seq<char>| deployment_spec(n).1),
            target@ == join_names(root@, mapped.take(i as int)),
        decreases names@.len() - i,
    {
        let (_, deployed) = deployed_name_of(names[i].as_str());
        target = path_join(target.as_str(), deployed.as_str());
        assert(mapped.take(i + 1).drop_last() =~= mapped.take(i as int));
        i += 1;
    }
    assert(mapped.take(i as int) =~= mapped);
    target
}

/// Adds the entries of `items` to `entries`.
fn scan_directory(items: &Vec<SourceItem>, root: &str, entries: &mut Vec<PackageEntry>) -> (res: Result<
    (),
    PackageError,
>)
    ensures
        match scan_items(items@, root@, 0, entries_view(old(entries)@)) {
            Ok(all) => res is Ok && entries_view(final(entries)@) == all,
            Err(e) => res matches Err(x) && x.kind() == e,
        },
{
    let ghost whole = scan_items(items@, root@, 0, entries_view(entries@));
    let mut i: usize = 0;
    while i < items.len()
        invariant
            i <= items@.len(),
            whole == scan_items(items@, root@, 0, entries_view(old(entries)@)),
            whole == scan_items(items@, root@, i as int, entries_view(entries@)),
        decreases items@.len() - i,
    {
        let item = &items[i];
        if !item.unicode {
            return Err(PackageError::InvalidFileName { path: item.path.clone() });
        }
        match item.kind {
            FileKind::Symlink => {
                return Err(PackageError::SymbolicLink { path: item.path.clone() });
            },
            FileKind::Directory => {},
            FileKind::Other => {
                return Err(PackageError::UnsupportedFileType { path: item.path.clone() });
            },
            FileKind::File => {
                let last: String = if item.names.len() > 0 {
                    item.names[item.names.len() - 1].clone()
                } else {
                    String::new()
                };
                proof {
                    assert(last@ == item_name(strings_view(item.names@)));
                }
                let (kind, _) = deployed_name_of(last.as_str());
                let target = deployed_target_exec(root, &item.names);
                let entry = PackageEntry { source: item.path.clone(), target, kind };
                let ghost before = entries_view(entries@);
                entries.push(entry);
                assert(entries_view(entries@) =~= before.push(entry@));
            },
        }
        i += 1;
    }
    Ok(())
}

/// The entries of the package directory's entries.
fn scan_root_entries(roots: &Vec<RootItem>, paths: &Values) -> (res: Result<Vec<PackageEntry>, PackageError>)
    ensures
        match scan_roots(roots@, paths.map(), 0, Seq::empty()) {
            Ok(all) => res matches Ok(v) && entries_view(v@) == all,
            Err(e) => res matches Err(x) && x.kind() == e,
        },
{
    let mut entries: Vec<PackageEntry> = Vec::new();
    let ghost whole = scan_roots(roots@, paths.map(), 0, Seq::empty());
    assert(entries_view(entries@) =~= Seq::<EntryView>::empty());
    let metadata = vec!['.', 'd', 't', 'm'];
    assert(metadata@ =~= metadata_name());
    let mut i: usize = 0;
    while i < roots.len()
        invariant
            i <= roots@.len(),
            metadata@ == metadata_name(),
            whole == scan_roots(roots@, paths.map(), 0, Seq::empty()),
            whole == scan_roots(roots@, paths.map(), i as int, entries_view(entries@)),
        decreases roots@.len() - i,
    {
        let r = &roots[i];
        let name_chars = chars_of(r.name.as_str());
        if crate::text::chars_equal(name_chars.as_slice(), metadata.as_slice()) {
            if r.kind != FileKind::Directory {
                return Err(PackageError::MetadataNotDirectory { path: r.path.clone() });
            }
        } else {
            if r.kind != FileKind::Directory {
                return Err(PackageError::UnexpectedRootEntry { path: r.path.clone() });
            }
            let value = match paths.get(r.name.as_str()) {
                Some(v) => v,
                None => {
                    return Err(
                        PackageError::UnknownVariableDirectory {
                            path: r.path.clone(),
                            variable: r.name.clone(),
                        },
                    );
                },
            };
            if !path_is_absolute(value.as_str()) {
                return Err(
                    PackageError::RelativeVariablePath { variable: r.name.clone(), value: value.clone() },
                );
            }
            scan_directory(&r.items, value.as_str(), &mut entries)?;
        }
        i += 1;
    }
    Ok(entries)
}

/// The entries ordered by target, equal targets keeping their order.
fn sort_entries(entries: Vec<PackageEntry>) -> (res: Vec<PackageEntry>)
    ensures
        entries_view(res@) == sort_by_target(entries_view(entries@)),
{
    let mut sorted: Vec<PackageEntry> = Vec::new();
    let mut i: usize = 0;
    let ghost input = entries_view(entries@);
    assert(input.take(0) =~= Seq::<EntryView>::empty());
    while i < entries.len()
        invariant
            i <= entries@.len(),
            input == entries_view(entries@),
            entries_view(sorted@) == sort_by_target(input.take(i as int)),
        decreases entries@.len() - i,
    {
        let x = entries[i].copy();
        let ghost before = entries_view(sorted@);
        let mut k: usize = 0;
        while k < sorted.len() && path_order(x.target.as_str(), sorted[k].target.as_str()) != Order::Less
            invariant
                k <= sorted@.len(),
                before == entries_view(sorted@),
                first_after(before, x@.target, 0) == first_after(before, x@.target, k as int),
            decreases sorted@.len() - k,
        {
            k += 1;
        }
        sorted.insert(k, x);
        proof {
            assert(input.take(i + 1).drop_last() =~= input.take(i as int));
            assert(input.take(i + 1).last() == x@);
            assert(entries_view(sorted@) =~= before.insert(k as int, x@));
        }
        i += 1;
    }
    assert(input.take(i as int) =~= input);
    sorted
}

/// Refuses two entries with the same target.
fn ensure_unique_targets(entries: &Vec<PackageEntry>) -> (res: Result<(), PackageError>)
    ensures
        match first_collision(entries_view(entries@), 0) {
            None => res is Ok,
            Some(i) => res matches Err(e) && e.kind() == (PkgErr::TargetCollision {
                first: entries_view(entries@)[i].source,
                second: entries_view(entries@)[i + 1].source,
                target: entries_view(entries@)[i].target,
            }),
        },
{
    let ghost s = entries_view(entries@);
    let n = entries.len();
    if n == 0 {
        return Ok(());
    }
    let mut i: usize = 0;
    while i + 1 < n
        invariant
            i < n,
            n == entries@.len(),
            s == entries_view(entries@),
            first_collision(s, 0) == first_collision(s, i as int),
        decreases entries@.len() - i,
    {
        if path_equal(entries[i].target.as_str(), entries[i + 1].target.as_str()) {
            return Err(
                PackageError::TargetCollision {
                    first: entries[i].source.clone(),
                    second: entries[i + 1].source.clone(),
                    target: entries[i].target.clone(),
                },
            );
        }
        i += 1;
    }
    Ok(())
}

impl PackagePlan {
    /// Loads the package `package_name` of `pkgs_dir`, whose directory was
    /// read into `listing`; `paths` are the configured paths.
    pub fn load(pkgs_dir: &str, package_name: &str, paths: &Values, listing: &PackageListing) -> (res:
        Result<Self, PackageError>)
        ensures
            match load_spec(pkgs_dir@, package_name@, paths.map(), listing) {
                Ok(es) => res matches Ok(p) && p.name@ == package_name@ && p.root@ == listing.root@
                    && entries_view(p.entries@) == es,
                Err(e) => res matches Err(x) && x.kind() == e,
            },
    {
        validate_package_name(package_name)?;
        if listing.root_kind != FileKind::Directory {
            return Err(PackageError::NotDirectory { path: path_join(pkgs_dir, package_name) });
        }
        let found = scan_root_entries(&listing.entries, paths)?;
        let entries = sort_entries(found);
        ensure_unique_targets(&entries)?;
        Ok(PackagePlan {
            name: crate::text::to_string(package_name),
            root: listing.root.clone(),
            entries,
        })
    }

    /// Where the backup of `entry`'s target goes: below `backup_dir`, the
    /// package's name, the nearest configured path of the target and the
    /// target's path below it with `.x` names written `dot-x`.
    pub fn backup_path(&self, entry: &PackageEntry, paths: &Values, backup_dir: &str) -> (res: Result<
        String,
        PackageError,
    >)
        ensures
            match backup_path_spec(self.name@, entry@.target, paths.map(), backup_dir@) {
                Ok(p) => res matches Ok(x) && x@ == p,
                Err(e) => res matches Err(x) && x.kind() == e,
            },
    {
        let (variable, relative) = match nearest_path_target(entry.target.as_str(), paths) {
            Some(r) => r,
            None => {
                return Err(PackageError::InvalidBackupTarget { path: entry.target.clone() });
            },
        };
        let reversed = reverse_backup_path(relative.as_str())?;
        let package_dir = path_join(backup_dir, self.name.as_str());
        let variable_dir = path_join(package_dir.as_str(), variable.as_str());
        Ok(path_join(variable_dir.as_str(), reversed.as_str()))
    }
}

/// The backup path of `target` for the package `name`.
pub open spec fn backup_path_spec(
    name: Seq<char>,
    target: Seq<char>,
    m: Map<Seq<char>, Seq<char>>,
    backup_dir: Seq<char>,
) -> Result<Seq<char>, PkgErr> {
    match nearest_spec(target, m) {
        None => Err(PkgErr::InvalidBackupTarget { path: target }),
        Some((variable, relative)) => match map_backup_spec(relative, true) {
            None => Err(PkgErr::InvalidBackupTarget { path: relative }),
            Some(b) => Ok(join(join(join(backup_dir, name), variable), b)),
        },
    }
}

// ---------------------------------------------------------------------------
// Installing a package.
// ---------------------------------------------------------------------------
/// What to do with a target that is not the entry.
#[derive(Debug, Clone, Copy, PartialEq, Eq, Structural)]
pub enum ApplyMode {
    /// Leave it.
    Normal,
    /// Replace it when it is a link.
    SemiForce,
    /// Replace it.
    Force,
}

impl Default for ApplyMode {
    fn default() -> (res: Self)
        ensures
            res == ApplyMode::Normal,
    {
        ApplyMode::Normal
    }
}

/// A target moved to a backup.
#[derive(Debug, Clone, PartialEq, Eq)]
pub struct BackupEntry {
    pub original: String,
    pub backup: String,
}

/// An entry left as it was, and why.
#[derive(Debug, Clone, PartialEq, Eq)]
pub struct SkippedEntry {
    pub entry: PackageEntry,
    pub reason: String,
}

/// What installing a package did.
#[derive(Debug, PartialEq, Eq)]
pub struct ApplyReport {
    pub applied: Vec<PackageEntry>,
    pub skipped: Vec<SkippedEntry>,
    pub backups: Vec<BackupEntry>,
}

impl Default for ApplyReport {
    fn default() -> (res: Self)
        ensures
            res.applied@.len() == 0,
            res.skipped@.len() == 0,
            res.backups@.len() == 0,
    {
        ApplyReport { applied: Vec::new(), skipped: Vec::new(), backups: Vec::new() }
    }
}

/// What was read for one entry before the package is installed or removed.
#[derive(Debug)]
pub struct EntryObservation {
    /// The text of the package file, read for a template entry.
    pub source_text: Option<String>,
    /// What stands at the target.
    pub target: TargetState,
    /// The entry's backup path is taken (read when backups are made).
    pub backup_exists: bool,
}

/// How an installed entry treats what stood at its target.
#[derive(Debug, PartialEq, Eq)]
pub enum Replacement {
    /// Nothing stood there.
    Nothing,
    /// It is removed.
    Remove,
    /// It is moved to this backup path.
    Backup(String),
}

/// The action taken for one entry.
#[derive(Debug, PartialEq, Eq)]
pub enum ApplyStep {
    /// The entry is left, for this reason.
    Skip(String),
    /// The target is made the entry: a link, or a file with the rendered
    /// text of a template.
    Install { replace: Replacement, contents: Option<String> },
}

/// The actions that install a package, in entry order, with the report
/// they make; `failure` is the error met at the entry after the last
/// action.
#[derive(Debug)]
pub struct ApplyPlan {
    pub steps: Vec<ApplyStep>,
    pub report: ApplyReport,
    pub failure: Option<PackageError>,
}

pub enum ReplView {
    Nothing,
    Remove,
    Backup(Seq<char>),
}

pub enum StepView {
    Skip(Seq<char>),
    Install(ReplView, Option<Seq<char>>),
}

pub open spec fn opt_string(o: Option<String>) -> Option<Seq<char>> {
    match o {
        Some(s) => Some(s@),
        None => None,
    }
}

impl ApplyStep {
    pub open spec fn view(&self) -> StepView {
        match self {
            ApplyStep::Skip(r) => StepView::Skip(r@),
            ApplyStep::Install { replace, contents } => StepView::Install(
                match replace {
                    Replacement::Nothing => ReplView::Nothing,
                    Replacement::Remove => ReplView::Remove,
                    Replacement::Backup(b) => ReplView::Backup(b@),
                },
                opt_string(*contents),
            ),
        }
    }
}

pub open spec fn steps_view(v: Seq<ApplyStep>) -> Seq<StepView> {
    v.map_values(|s: ApplyStep| s.view())
}

pub open spec fn up_to_date() -> Seq<char> {
    seq!['a', 'l', 'r', 'e', 'a', 'd', 'y', ' ', 'u', 'p', ' ', 't', 'o', ' ', 'd', 'a', 't', 'e']
}

pub open spec fn already_exists() -> Seq<char> {
    seq![
        't', 'a', 'r', 'g', 'e', 't', ' ', 'a', 'l', 'r', 'e', 'a', 'd', 'y', ' ', 'e', 'x', 'i',
        's', 't', 's',
    ]
}

/// The mode replaces a target that is not the entry.
pub open spec fn replaces(mode: ApplyMode, target: TargetState) -> bool {
    match mode {
        ApplyMode::Normal => false,
        ApplyMode::SemiForce => target is Symlink,
        ApplyMode::Force => true,
    }
}

pub open spec fn source_text_view(o: &EntryObservation) -> Seq<char> {
    match o.source_text {
        Some(t) => t@,
        None => Seq::empty(),
    }
}

/// The rendered text of a template entry; `None` for a link entry.
pub open spec fn rendered_spec(e: EntryView, o: &EntryObservation, values: Map<Seq<char>, Seq<char>>) -> Result<
    Option<Seq<char>>,
    PkgErr,
> {
    match e.kind {
        EntryKind::Symlink => Ok(None),
        EntryKind::Template => match render_spec(source_text_view(o), values) {
            Ok(r) => Ok(Some(r)),
            Err(n) => Err(PkgErr::UnknownTemplateVariable { path: e.source, variable: n }),
        },
    }
}

/// The action for one entry: a missing target is installed; a directory is
/// refused; a target that already is the entry is left; otherwise the mode
/// decides, and a replaced target is removed or moved to `backup`, which
/// must not be taken.
pub open spec fn apply_entry_spec(
    e: EntryView,
    o: &EntryObservation,
    values: Map<Seq<char>, Seq<char>>,
    mode: ApplyMode,
    backup: Option<Seq<char>>,
) -> Result<StepView, PkgErr> {
    match rendered_spec(e, o, values) {
        Err(x) => Err(x),
        Ok(r) => match o.target {
            TargetState::Missing => Ok(StepView::Install(ReplView::Nothing, r)),
            TargetState::Directory => Err(PkgErr::TargetIsDirectory { path: e.target }),
            _ => if is_current_spec(e, r, o.target) {
                Ok(StepView::Skip(up_to_date()))
            } else if !replaces(mode, o.target) {
                Ok(StepView::Skip(already_exists()))
            } else {
                match backup {
                    None => Ok(StepView::Install(ReplView::Remove, r)),
                    Some(b) => if o.backup_exists {
                        Err(PkgErr::BackupAlreadyExists { path: b })
                    } else {
                        Ok(StepView::Install(ReplView::Backup(b), r))
                    },
                }
            },
        },
    }
}

/// The backup path for an entry's target, when backups are made into
/// `backup_dir`.
pub open spec fn entry_backup(
    name: Seq<char>,
    target: Seq<char>,
    paths: Map<Seq<char>, Seq<char>>,
    backup_dir: Option<Seq<char>>,
) -> Result<Option<Seq<char>>, PkgErr> {
    match backup_dir {
        None => Ok(None),
        Some(d) => match backup_path_spec(name, target, paths, d) {
            Ok(p) => Ok(Some(p)),
            Err(e) => Err(e),
        },
    }
}

/// The actions for the entries from `i`, up to the first error.
pub open spec fn apply_steps(
    name: Seq<char>,
    es: Seq<EntryView>,
    os: Seq<EntryObservation>,
    values: Map<Seq<char>, Seq<char>>,
    mode: ApplyMode,
    paths: Map<Seq<char>, Seq<char>>,
    backup_dir: Option<Seq<char>>,
    i: int,
) -> (Seq<StepView>, Option<PkgErr>)
    decreases es.len() - i,
{
    if i < 0 || i >= es.len() {
        (Seq::empty(), None)
    } else {
        let step = match entry_backup(name, es[i].target, paths, backup_dir) {
            Err(x) => Err(x),
            Ok(b) => apply_entry_spec(es[i], &os[i], values, mode, b),
        };
        match step {
            Err(x) => (Seq::empty(), Some(x)),
            Ok(st) => {
                let (rest, err) = apply_steps(name, es, os, values, mode, paths, backup_dir, i + 1);
                (seq![st] + rest, err)
            },
        }
    }
}

/// The entries that the steps install.
pub open spec fn applied_of(es: Seq<EntryView>, st: Seq<StepView>) -> Seq<EntryView>
    decreases st.len(),
{
    if st.len() == 0 {
        Seq::empty()
    } else {
        let prev = applied_of(es, st.drop_last());
        match st.last() {
            StepView::Install(..) => prev.push(es[st.len() - 1]),
            StepView::Skip(_) => prev,
        }
    }
}

/// The entries that the steps leave, with the reasons.
pub open spec fn skipped_of(es: Seq<EntryView>, st: Seq<StepView>) -> Seq<(EntryView, Seq<char>)>
    decreases st.len(),
{
    if st.len() == 0 {
        Seq::empty()
    } else {
        let prev = skipped_of(es, st.drop_last());
        match st.last() {
            StepView::Install(..) => prev,
            StepView::Skip(r) => prev.push((es[st.len() - 1], r)),
        }
    }
}

/// The targets that the steps move to backups, with their backup paths.
pub open spec fn backups_of(es: Seq<EntryView>, st: Seq<StepView>) -> Seq<(Seq<char>, Seq<char>)>
    decreases st.len(),
{
    if st.len() == 0 {
        Seq::empty()
    } else {
        let prev = backups_of(es, st.drop_last());
        match st.last() {
            StepView::Install(ReplView::Backup(b), _) => prev.push((es[st.len() - 1].target, b)),
            _ => prev,
        }
    }
}

pub open spec fn skipped_view(v: Seq<SkippedEntry>) -> Seq<(EntryView, Seq<char>)> {
    v.map_values(|s: SkippedEntry| (s.entry@, s.reason@))
}

pub open spec fn backups_view(v: Seq<BackupEntry>) -> Seq<(Seq<char>, Seq<char>)> {
    v.map_values(|b: BackupEntry| (b.original@, b.backup@))
}

/// The plan's steps and failure are those of `apply_steps`, and its report
/// is what the steps do.
pub open spec fn plan_matches(
    plan: &ApplyPlan,
    es: Seq<EntryView>,
    expected: (Seq<StepView>, Option<PkgErr>),
) -> bool {
    &&& steps_view(plan.steps@) == expected.0
    &&& match expected.1 {
        None => plan.failure is None,
        Some(e) => plan.failure matches Some(x) && x.kind() == e,
    }
    &&& entries_view(plan.report.applied@) == applied_of(es, expected.0)
    &&& skipped_view(plan.report.skipped@) == skipped_of(es, expected.0)
    &&& backups_view(plan.report.backups@) == backups_of(es, expected.0)
}

fn up_to_date_text() -> (res: String)
    ensures
        res@ == up_to_date(),
{
    proof {
        reveal_strlit("already up to date");
        assert("already up to date"@ =~= up_to_date());
    }
    crate::text::to_string("already up to date")
}

fn already_exists_text() -> (res: String)
    ensures
        res@ == already_exists(),
{
    proof {
        reveal_strlit("target already exists");
        assert("target already exists"@ =~= already_exists());
    }
    crate::text::to_string("target already exists")
}

/// The action for one entry.
pub fn apply_entry(
    entry: &PackageEntry,
    observation: &EntryObservation,
    template_values: &Values,
    mode: ApplyMode,
    backup: Option<String>,
) -> (res: Result<ApplyStep, PackageError>)
    ensures
        match apply_entry_spec(entry@, observation, template_values.map(), mode, opt_string(backup)) {
            Ok(st) => res matches Ok(x) && x.view() == st,
            Err(e) => res matches Err(x) && x.kind() == e,
        },
{
    let rendered: Option<String> = match entry.kind {
        EntryKind::Symlink => None,
        EntryKind::Template => {
            let text = match &observation.source_text {
                Some(t) => t.clone(),
                None => String::new(),
            };
            Some(render_template(entry.source.as_str(), text.as_str(), template_values)?)
        },
    };
    match &observation.target {
        TargetState::Missing => {
            return Ok(ApplyStep::Install { replace: Replacement::Nothing, contents: rendered });
        },
        TargetState::Directory => {
            return Err(PackageError::TargetIsDirectory { path: entry.target.clone() });
        },
        _ => {},
    }
    let current = match &rendered {
        Some(r) => target_is_current_entry(entry, Some(r.as_str()), &observation.target),
        None => target_is_current_entry(entry, None, &observation.target),
    };
    if current {
        return Ok(ApplyStep::Skip(up_to_date_text()));
    }
    let replace = match mode {
        ApplyMode::Normal => false,
        ApplyMode::SemiForce => match &observation.target {
            TargetState::Symlink(_) => true,
            _ => false,
        },
        ApplyMode::Force => true,
    };
    if !replace {
        return Ok(ApplyStep::Skip(already_exists_text()));
    }
    match backup {
        None => Ok(ApplyStep::Install { replace: Replacement::Remove, contents: rendered }),
        Some(b) => {
            if observation.backup_exists {
                Err(PackageError::BackupAlreadyExists { path: b })
            } else {
                Ok(ApplyStep::Install { replace: Replacement::Backup(b), contents: rendered })
            }
        },
    }
}

impl PackagePlan {
    /// The actions and report of installing the package; `observations[i]`
    /// is what was read for entry `i`, and `backup_dir`, when given, is
    /// where replaced targets are moved.
    #[verifier::loop_isolation(false)]
    fn plan_apply(
        &self,
        paths: &Values,
        template_values: &Values,
        mode: ApplyMode,
        backup_dir: Option<&str>,
        observations: &Vec<EntryObservation>,
    ) -> (res: ApplyPlan)
        requires
            observations@.len() == self.entries@.len(),
        ensures
            plan_matches(
                &res,
                entries_view(self.entries@),
                apply_steps(
                    self.name@,
                    entries_view(self.entries@),
                    observations@,
                    template_values.map(),
                    mode,
                    paths.map(),
                    opt_str(backup_dir),
                    0,
                ),
            ),
    {
        let ghost es = entries_view(self.entries@);
        let ghost whole = apply_steps(
            self.name@,
            es,
            observations@,
            template_values.map(),
            mode,
            paths.map(),
            opt_str(backup_dir),
            0,
        );
        let mut steps: Vec<ApplyStep> = Vec::new();
        let mut report = ApplyReport::default();
        let mut i: usize = 0;
        assert(steps_view(steps@) =~= Seq::<StepView>::empty());
        assert(entries_view(report.applied@) =~= Seq::<EntryView>::empty());
        assert(skipped_view(report.skipped@) =~= Seq::<(EntryView, Seq<char>)>::empty());
        assert(backups_view(report.backups@) =~= Seq::<(Seq<char>, Seq<char>)>::empty());
        while i < self.entries.len()
            invariant
                i <= es.len(),
                steps@.len() == i,
                whole == {
                    let (rest, err) = apply_steps(
                        self.name@,
                        es,
                        observations@,
                        template_values.map(),
                        mode,
                        paths.map(),
                        opt_str(backup_dir),
                        i as int,
                    );
                    (steps_view(steps@) + rest, err)
                },
                entries_view(report.applied@) == applied_of(es, steps_view(steps@)),
                skipped_view(report.skipped@) == skipped_of(es, steps_view(steps@)),
                backups_view(report.backups@) == backups_of(es, steps_view(steps@)),
            decreases es.len() - i,
        {
            let entry = &self.entries[i];
            let backup = match backup_dir {
                None => None,
                Some(d) => match self.backup_path(entry, paths, d) {
                    Ok(p) => Some(p),
                    Err(e) => {
                        proof {
                            assert(steps_view(steps@) + Seq::<StepView>::empty() =~= steps_view(steps@));
                        }
                        return ApplyPlan { steps, report, failure: Some(e) };
                    },
                },
            };
            let step = match apply_entry(entry, &observations[i], template_values, mode, backup) {
                Ok(st) => st,
                Err(e) => {
                    proof {
                        assert(steps_view(steps@) + Seq::<StepView>::empty() =~= steps_view(steps@));
                    }
                    return ApplyPlan { steps, report, failure: Some(e) };
                },
            };
            let ghost sv = step.view();
            let ghost before_steps = steps_view(steps@);
            match &step {
                ApplyStep::Skip(reason) => {
                    let ghost old_skipped = skipped_view(report.skipped@);
                    report.skipped.push(SkippedEntry { entry: entry.copy(), reason: reason.clone() });
                    assert(skipped_view(report.skipped@) =~= old_skipped.push((es[i as int], reason@)));
                },
                ApplyStep::Install { replace, contents: _ } => {
                    let ghost old_applied = entries_view(report.applied@);
                    report.applied.push(entry.copy());
                    assert(entries_view(report.applied@) =~= old_applied.push(es[i as int]));
                    match replace {
                        Replacement::Backup(b) => {
                            let ghost old_backups = backups_view(report.backups@);
                            report.backups.push(
                                BackupEntry { original: entry.target.clone(), backup: b.clone() },
                            );
                            assert(backups_view(report.backups@) =~= old_backups.push(
                                (es[i as int].target, b@),
                            ));
                        },
                        _ => {},
                    }
                },
            }
            steps.push(step);
            proof {
                assert(steps_view(steps@) =~= before_steps.push(sv));
                assert(steps_view(steps@).drop_last() =~= before_steps);
                let (rest, err) = apply_steps(
                    self.name@,
                    es,
                    observations@,
                    template_values.map(),
                    mode,
                    paths.map(),
                    opt_str(backup_dir),
                    i + 1,
                );
                assert(before_steps + (seq![sv] + rest) =~= steps_view(steps@) + rest);
            }
            i += 1;
        }
        proof {
            assert(steps_view(steps@) + Seq::<StepView>::empty() =~= steps_view(steps@));
        }
        ApplyPlan { steps, report, failure: None }
    }

    /// The actions and report of installing the package; `observations[i]`
    /// is what was read for entry `i`.
    pub fn apply(&self, template_values: &Values, mode: ApplyMode, observations: &Vec<EntryObservation>) -> (res:
        ApplyPlan)
        requires
            observations@.len() == self.entries@.len(),
        ensures
            plan_matches(
                &res,
                entries_view(self.entries@),
                apply_steps(
                    self.name@,
                    entries_view(self.entries@),
                    observations@,
                    template_values.map(),
                    mode,
                    Map::empty(),
                    None,
                    0,
                ),
            ),
    {
        let paths = Values::new();
        self.plan_apply(&paths, template_values, mode, None, observations)
    }

    /// The actions and report of installing the package, replaced targets
    /// moving to backups below `backup_dir`.
    pub fn apply_with_backup(
        &self,
        paths: &Values,
        template_values: &Values,
        mode: ApplyMode,
        backup_dir: &str,
        observations: &Vec<EntryObservation>,
    ) -> (res: ApplyPlan)
        requires
            observations@.len() == self.entries@.len(),
        ensures
            plan_matches(
                &res,
                entries_view(self.entries@),
                apply_steps(
                    self.name@,
                    entries_view(self.entries@),
                    observations@,
                    template_values.map(),
                    mode,
                    paths.map(),
                    Some(backup_dir@),
                    0,
                ),
            ),
    {
        self.plan_apply(paths, template_values, mode, Some(backup_dir), observations)
    }
}

// ---------------------------------------------------------------------------
// Removing a package.
// ---------------------------------------------------------------------------
/// The result of a removal is what `remove_spec` decides: the removed and
/// left entries, or the failure.
pub open spec fn removal_matches(
    res: &Result<RemoveReport, PackageError>,
    es: Seq<EntryView>,
    os: Seq<EntryObservation>,
    values: Map<Seq<char>, Seq<char>>,
    mode: RemoveMode,
) -> bool {
    match remove_spec(es, os, values, mode) {
        Ok((m, u)) => res matches Ok(r) && entries_view(r.removed@) == m && entries_view(r.skipped@) == u,
        Err(e) => res matches Err(x) && x.kind() == e,
    }
}

/// Which targets a removal may pass over.
#[derive(Debug, Clone, Copy, PartialEq, Eq, Structural)]
pub enum RemoveMode {
    /// Every target must still be the entry.
    Safe,
    /// Targets that are no longer the entry are left.
    SkipUnmanaged,
}

impl Default for RemoveMode {
    fn default() -> (res: Self)
        ensures
            res == RemoveMode::Safe,
    {
        RemoveMode::Safe
    }
}

/// The entries whose targets a removal deletes, and those it leaves.
#[derive(Debug, PartialEq, Eq)]
pub struct RemoveReport {
    pub removed: Vec<PackageEntry>,
    pub skipped: Vec<PackageEntry>,
}

/// The entries from `i` split into those whose target is the entry
/// (managed) and the others, in order; a template that cannot be rendered is
/// an error.
pub open spec fn split_managed(
    es: Seq<EntryView>,
    os: Seq<EntryObservation>,
    values: Map<Seq<char>, Seq<char>>,
    i: int,
) -> Result<(Seq<EntryView>, Seq<EntryView>), PkgErr>
    decreases es.len() - i,
{
    if i < 0 || i >= es.len() {
        Ok((Seq::empty(), Seq::empty()))
    } else {
        match rendered_spec(es[i], &os[i], values) {
            Err(x) => Err(x),
            Ok(r) => match split_managed(es, os, values, i + 1) {
                Err(x) => Err(x),
                Ok((m, u)) => if is_current_spec(es[i], r, os[i].target) {
                    Ok((seq![es[i]] + m, u))
                } else {
                    Ok((m, seq![es[i]] + u))
                },
            },
        }
    }
}

pub open spec fn targets_of(es: Seq<EntryView>) -> Seq<Seq<char>> {
    es.map_values(|e: EntryView| e.target)
}

/// Removing the package: the managed entries are removed; in the safe mode
/// any unmanaged entry refuses the whole removal.
pub open spec fn remove_spec(
    es: Seq<EntryView>,
    os: Seq<EntryObservation>,
    values: Map<Seq<char>, Seq<char>>,
    mode: RemoveMode,
) -> Result<(Seq<EntryView>, Seq<EntryView>), PkgErr> {
    match split_managed(es, os, values, 0) {
        Err(x) => Err(x),
        Ok((m, u)) => if mode == RemoveMode::Safe && u.len() > 0 {
            Err(PkgErr::UnmanagedTargets { paths: targets_of(u) })
        } else {
            Ok((m, u))
        },
    }
}

impl PackagePlan {
    /// Decides the removal of the package: the entries whose targets are
    /// removed (in order) and those left; `observations[i]` is what was read
    /// for entry `i`.
    pub fn remove(&self, template_values: &Values, mode: RemoveMode, observations: &Vec<EntryObservation>) -> (res:
        Result<RemoveReport, PackageError>)
        requires
            observations@.len() == self.entries@.len(),
        ensures
            removal_matches(&res, entries_view(self.entries@), observations@, template_values.map(), mode),
    {
        let ghost es = entries_view(self.entries@);
        let ghost os = observations@;
        let ghost values = template_values.map();
        let mut managed: Vec<PackageEntry> = Vec::new();
        let mut unmanaged: Vec<PackageEntry> = Vec::new();
        let mut i: usize = 0;
        assert(entries_view(managed@) =~= Seq::<EntryView>::empty());
        assert(entries_view(unmanaged@) =~= Seq::<EntryView>::empty());
        while i < self.entries.len()
            invariant
                i <= es.len(),
                es == entries_view(self.entries@),
                os == observations@,
                os.len() == es.len(),
                values == template_values.map(),
                split_managed(es, os, values, 0) == match split_managed(es, os, values, i as int) {
                    Err(x) => Err(x),
                    Ok((m, u)) => Ok::<(Seq<EntryView>, Seq<EntryView>), PkgErr>(
                        (entries_view(managed@) + m, entries_view(unmanaged@) + u),
                    ),
                },
            decreases es.len() - i,
        {
            let entry = &self.entries[i];
            let observation = &observations[i];
            let rendered: Option<String> = match entry.kind {
                EntryKind::Symlink => None,
                EntryKind::Template => {
                    let text = match &observation.source_text {
                        Some(t) => t.clone(),
                        None => String::new(),
                    };
                    Some(render_template(entry.source.as_str(), text.as_str(), template_values)?)
                },
            };
            let current = match &rendered {
                Some(r) => target_is_current_entry(entry, Some(r.as_str()), &observation.target),
                None => target_is_current_entry(entry, None, &observation.target),
            };
            let ghost old_m = entries_view(managed@);
            let ghost old_u = entries_view(unmanaged@);
            if current {
                managed.push(entry.copy());
                assert(entries_view(managed@) =~= old_m.push(es[i as int]));
            } else {
                unmanaged.push(entry.copy());
                assert(entries_view(unmanaged@) =~= old_u.push(es[i as int]));
            }
            proof {
                match split_managed(es, os, values, i + 1) {
                    Err(x) => {},
                    Ok((m, u)) => {
                        assert(old_m + (seq![es[i as int]] + m) =~= old_m.push(es[i as int]) + m);
                        assert(old_u + (seq![es[i as int]] + u) =~= old_u.push(es[i as int]) + u);
                    },
                }
            }
            i += 1;
        }
        proof {
            assert(entries_view(managed@) + Seq::<EntryView>::empty() =~= entries_view(managed@));
            assert(entries_view(unmanaged@) + Seq::<EntryView>::empty() =~= entries_view(unmanaged@));
        }
        if mode == RemoveMode::Safe && unmanaged.len() > 0 {
            let mut paths: Vec<String> = Vec::new();
            let mut k: usize = 0;
            while k < unmanaged.len()
                invariant
                    k <= unmanaged@.len(),
                    strings_view(paths@) == targets_of(entries_view(unmanaged@)).take(k as int),
                decreases unmanaged@.len() - k,
            {
                let ghost before = strings_view(paths@);
                let t = unmanaged[k].target.clone();
                paths.push(t);
                proof {
                    let all = targets_of(entries_view(unmanaged@));
                    assert(strings_view(paths@) =~= before.push(t@));
                    assert(all[k as int] == t@);
                    assert(all.take(k + 1) =~= all.take(k as int).push(all[k as int]));
                }
                k += 1;
            }
            assert(targets_of(entries_view(unmanaged@)).take(k as int) =~= targets_of(
                entries_view(unmanaged@),
            ));
            return Err(PackageError::UnmanagedTargets { paths });
        }
        Ok(RemoveReport { removed: managed, skipped: unmanaged })
    }
}

// ---------------------------------------------------------------------------
// Restoring backups.
// ---------------------------------------------------------------------------
/// What was found at a package's backup directory.
#[derive(Debug, Clone, Copy, PartialEq, Eq, Structural)]
pub enum BackupRootState {
    NotFound,
    /// A file or a link, not a directory.
    NotDirectory,
    Directory,
}

/// A file or directory below a package's backup directory, with the names of
/// the components from that directory to it.
#[derive(Debug)]
pub struct BackupItem {
    pub path: String,
    pub names: Vec<String>,
    /// Every name of `names` is valid Unicode.
    pub unicode: bool,
    pub kind: FileKind,
}

/// What was read of a package's backup directory: everything below it.
#[derive(Debug)]
pub struct BackupListing {
    pub state: BackupRootState,
    pub items: Vec<BackupItem>,
}

/// A backup file moved back to its target.
#[derive(Debug, Clone, PartialEq, Eq)]
pub struct RestoredEntry {
    pub backup: String,
    pub target: String,
}

/// What restoring a package did.
#[derive(Debug, PartialEq, Eq)]
pub struct RestoreReport {
    pub restored: Vec<RestoredEntry>,
}

/// The actions that restore a package's backups: remove the package's
/// targets, move each backup file to its target, then remove the backup
/// directories, deepest first.
#[derive(Debug)]
pub struct RestorePlan {
    pub removal: RemoveReport,
    pub restored: Vec<RestoredEntry>,
    pub directories: Vec<String>,
}

pub struct ItemView {
    pub path: Seq<char>,
    pub names: Seq<Seq<char>>,
    pub unicode: bool,
    pub kind: FileKind,
}

impl BackupItem {
    pub open spec fn view(&self) -> ItemView {
        ItemView { path: self.path@, names: strings_view(self.names@), unicode: self.unicode, kind: self.kind }
    }
}

pub open spec fn items_view(v: Seq<BackupItem>) -> Seq<ItemView> {
    v.map_values(|i: BackupItem| i.view())
}

/// The order of component names: lexicographic, by name.
pub open spec fn names_lt(a: Seq<Seq<char>>, b: Seq<Seq<char>>) -> bool
    decreases a.len(),
{
    if a.len() == 0 {
        b.len() > 0
    } else if b.len() == 0 {
        false
    } else if a[0] != b[0] {
        text_lt(a[0], b[0])
    } else {
        names_lt(a.drop_first(), b.drop_first())
    }
}

pub open spec fn first_item_after(s: Seq<ItemView>, names: Seq<Seq<char>>, i: int) -> int
    decreases s.len() - i,
{
    if i < 0 || i >= s.len() {
        s.len() as int
    } else if names_lt(names, s[i].names) {
        i
    } else {
        first_item_after(s, names, i + 1)
    }
}

/// The items in the order a walk visits them when it reads each directory in
/// name order: the lexicographic order of their names.
pub open spec fn sort_items(s: Seq<ItemView>) -> Seq<ItemView>
    decreases s.len(),
{
    if s.len() == 0 {
        s
    } else {
        let sorted = sort_items(s.drop_last());
        sorted.insert(first_item_after(sorted, s.last().names, 0), s.last())
    }
}

/// What the walk of the backup directory has gathered: the backup files with
/// their targets, and the directories.
pub struct RestoreScan {
    pub pending: Seq<(Seq<char>, Seq<char>)>,
    pub dirs: Seq<Seq<char>>,
}

/// One item of the walk: a directory at the top must be named after a
/// configured absolute path; below it, a directory is noted, and a file or
/// link must be a backup path that maps back to itself, to a target of the
/// package not seen before.
pub open spec fn restore_item(
    it: ItemView,
    m: Map<Seq<char>, Seq<char>>,
    es: Seq<EntryView>,
    acc: RestoreScan,
) -> Result<RestoreScan, PkgErr> {
    if it.names.len() == 0 {
        Err(PkgErr::InvalidBackupEntry { path: it.path })
    } else if it.names.len() == 1 {
        let variable = it.names[0];
        if it.kind != FileKind::Directory || !it.unicode {
            Err(PkgErr::InvalidBackupEntry { path: it.path })
        } else if !m.contains_key(variable) {
            Err(PkgErr::UnknownBackupVariable { path: it.path, variable })
        } else if !is_absolute(m[variable]) {
            Err(PkgErr::RelativeVariablePath { variable, value: m[variable] })
        } else {
            Ok(RestoreScan { pending: acc.pending, dirs: acc.dirs.push(it.path) })
        }
    } else if it.kind == FileKind::Directory {
        Ok(RestoreScan { pending: acc.pending, dirs: acc.dirs.push(it.path) })
    } else if it.kind == FileKind::Other || !m.contains_key(it.names[0]) || !is_absolute(
        m[it.names[0]],
    ) {
        Err(PkgErr::InvalidBackupEntry { path: it.path })
    } else {
        let relative = join_names(Seq::empty(), it.names.skip(1));
        if !it.unicode {
            Err(PkgErr::InvalidBackupTarget { path: relative })
        } else {
            match map_backup_spec(relative, false) {
                None => Err(PkgErr::InvalidBackupTarget { path: relative }),
                Some(target_relative) => match map_backup_spec(target_relative, true) {
                    None => Err(PkgErr::InvalidBackupTarget { path: target_relative }),
                    Some(back) => if !path_eq(back, relative) {
                        Err(PkgErr::InvalidBackupEntry { path: it.path })
                    } else {
                        let target = join(m[it.names[0]], target_relative);
                        if exists|j: int|
                            0 <= j < acc.pending.len() && path_eq(#[trigger] acc.pending[j].1, target) {
                            Err(PkgErr::DuplicateRestoreTarget { path: target })
                        } else if !(exists|j: int|
                            0 <= j < es.len() && path_eq(#[trigger] es[j].target, target)) {
                            Err(PkgErr::BackupTargetNotInPackage { backup: it.path, target })
                        } else {
                            Ok(RestoreScan { pending: acc.pending.push((it.path, target)), dirs: acc.dirs })
                        }
                    },
                },
            }
        }
    }
}

/// The walk over the items from `i`.
pub open spec fn restore_scan(
    items: Seq<ItemView>,
    m: Map<Seq<char>, Seq<char>>,
    es: Seq<EntryView>,
    i: int,
    acc: RestoreScan,
) -> Result<RestoreScan, PkgErr>
    decreases items.len() - i,
{
    if i < 0 || i >= items.len() {
        Ok(acc)
    } else {
        match restore_item(items[i], m, es, acc) {
            Err(e) => Err(e),
            Ok(next) => restore_scan(items, m, es, i + 1, next),
        }
    }
}

pub open spec fn first_shallower(s: Seq<Seq<char>>, d: int, i: int) -> int
    decreases s.len() - i,
{
    if i < 0 || i >= s.len() {
        s.len() as int
    } else if depth(s[i]) < d {
        i
    } else {
        first_shallower(s, d, i + 1)
    }
}

/// The paths ordered deepest first, paths of equal depth keeping their order.
pub open spec fn sort_deepest_first(s: Seq<Seq<char>>) -> Seq<Seq<char>>
    decreases s.len(),
{
    if s.len() == 0 {
        s
    } else {
        let sorted = sort_deepest_first(s.drop_last());
        sorted.insert(first_shallower(sorted, depth(s.last()), 0), s.last())
    }
}

/// The paths without a path equal to the one kept before it (`Vec::dedup`).
pub open spec fn dedup_paths(s: Seq<Seq<char>>) -> Seq<Seq<char>>
    decreases s.len(),
{
    if s.len() == 0 {
        s
    } else {
        let d = dedup_paths(s.drop_last());
        if d.len() > 0 && path_eq(d.last(), s.last()) {
            d
        } else {
            d.push(s.last())
        }
    }
}

/// What a restore does: (the removed and left entries, the backups with their
/// targets, the directories to remove), or why it is refused. Every target
/// must still be its entry before any backup moves; the first that is not is
/// named.
pub open spec fn restore_spec(
    name: Seq<char>,
    backup_dir: Seq<char>,
    listing: &BackupListing,
    m: Map<Seq<char>, Seq<char>>,
    es: Seq<EntryView>,
    os: Seq<EntryObservation>,
    values: Map<Seq<char>, Seq<char>>,
) -> Result<
    ((Seq<EntryView>, Seq<EntryView>), Seq<(Seq<char>, Seq<char>)>, Seq<Seq<char>>),
    PkgErr,
> {
    let package_backup = join(backup_dir, name);
    match listing.state {
        BackupRootState::NotFound => Err(PkgErr::BackupPackageNotFound { path: package_backup }),
        BackupRootState::NotDirectory => Err(PkgErr::InvalidBackupEntry { path: package_backup }),
        BackupRootState::Directory => match restore_scan(
            sort_items(items_view(listing.items@)),
            m,
            es,
            0,
            RestoreScan { pending: Seq::empty(), dirs: seq![package_backup] },
        ) {
            Err(e) => Err(e),
            Ok(scan) => if scan.pending.len() == 0 {
                Err(PkgErr::BackupPackageEmpty { path: package_backup })
            } else {
                match split_managed(es, os, values, 0) {
                    Err(e) => Err(e),
                    Ok((m, u)) => if u.len() > 0 {
                        Err(PkgErr::RestoreTargetNotManaged { path: u[0].target })
                    } else {
                        Ok(((m, u), scan.pending, dedup_paths(sort_deepest_first(scan.dirs))))
                    },
                }
            },
        },
    }
}

/// The result of a restore is what `restore_spec` decides: the removal, the
/// backups to move with their targets, and the directories to remove; or the
/// failure.
pub open spec fn restoration_matches(
    res: &Result<RestorePlan, PackageError>,
    name: Seq<char>,
    backup_dir: Seq<char>,
    listing: &BackupListing,
    paths: Map<Seq<char>, Seq<char>>,
    es: Seq<EntryView>,
    os: Seq<EntryObservation>,
    values: Map<Seq<char>, Seq<char>>,
) -> bool {
    match restore_spec(name, backup_dir, listing, paths, es, os, values) {
        Ok((removal, pending, dirs)) => res matches Ok(p) && entries_view(p.removal.removed@) == removal.0
            && entries_view(p.removal.skipped@) == removal.1 && restored_view(p.restored@) == pending
            && strings_view(p.directories@) == dirs,
        Err(e) => res matches Err(x) && x.kind() == e,
    }
}

pub open spec fn restored_view(v: Seq<RestoredEntry>) -> Seq<(Seq<char>, Seq<char>)> {
    v.map_values(|r: RestoredEntry| (r.backup@, r.target@))
}

/// Whether the names `a` go before the names `b`.
fn names_before(a: &Vec<String>, b: &Vec<String>) -> (res: bool)
    ensures
        res == names_lt(strings_view(a@), strings_view(b@)),
{
    let ghost x = strings_view(a@);
    let ghost y = strings_view(b@);
    let mut i: usize = 0;
    assert(x.skip(0) =~= x);
    assert(y.skip(0) =~= y);
    while i < a.len() && i < b.len()
        invariant
            i <= a@.len(),
            i <= b@.len(),
            x == strings_view(a@),
            y == strings_view(b@),
            names_lt(x, y) == names_lt(x.skip(i as int), y.skip(i as int)),
        decreases a@.len() - i,
    {
        let o = crate::text::str_order(a[i].as_str(), b[i].as_str());
        assert(x.skip(i as int)[0] == a@[i as int]@);
        assert(y.skip(i as int)[0] == b@[i as int]@);
        match o {
            Order::Less => {
                return true;
            },
            Order::Greater => {
                proof {
                    crate::text::lemma_text_lt_irreflexive(a@[i as int]@);
                }
                return false;
            },
            Order::Equal => {},
        }
        assert(x.skip(i as int).drop_first() =~= x.skip(i + 1));
        assert(y.skip(i as int).drop_first() =~= y.skip(i + 1));
        i += 1;
    }
    i == a.len() && i < b.len()
}

fn copy_item(it: &BackupItem) -> (res: BackupItem)
    ensures
        res.view() == it.view(),
{
    let mut names: Vec<String> = Vec::new();
    let mut i: usize = 0;
    while i < it.names.len()
        invariant
            i <= it.names@.len(),
            strings_view(names@) == strings_view(it.names@).take(i as int),
        decreases it.names@.len() - i,
    {
        let n = it.names[i].clone();
        let ghost before = strings_view(names@);
        names.push(n);
        assert(strings_view(names@) =~= before.push(n@));
        assert(strings_view(it.names@).take(i + 1) =~= strings_view(it.names@).take(i as int).push(
            strings_view(it.names@)[i as int],
        ));
        i += 1;
    }
    assert(strings_view(it.names@).take(i as int) =~= strings_view(it.names@));
    BackupItem { path: it.path.clone(), names, unicode: it.unicode, kind: it.kind }
}

fn sort_backup_items(items: &Vec<BackupItem>) -> (res: Vec<BackupItem>)
    ensures
        items_view(res@) == sort_items(items_view(items@)),
{
    let mut sorted: Vec<BackupItem> = Vec::new();
    let ghost input = items_view(items@);
    let mut i: usize = 0;
    assert(input.take(0) =~= Seq::<ItemView>::empty());
    while i < items.len()
        invariant
            i <= items@.len(),
            input == items_view(items@),
            items_view(sorted@) == sort_items(input.take(i as int)),
        decreases items@.len() - i,
    {
        let x = copy_item(&items[i]);
        let ghost before = items_view(sorted@);
        let mut k: usize = 0;
        while k < sorted.len() && !names_before(&x.names, &sorted[k].names)
            invariant
                k <= sorted@.len(),
                before == items_view(sorted@),
                first_item_after(before, x.view().names, 0) == first_item_after(
                    before,
                    x.view().names,
                    k as int,
                ),
            decreases sorted@.len() - k,
        {
            k += 1;
        }
        let ghost xv = x.view();
        sorted.insert(k, x);
        proof {
            assert(input.take(i + 1).drop_last() =~= input.take(i as int));
            assert(input.take(i + 1).last() == xv);
            assert(items_view(sorted@) =~= before.insert(k as int, xv));
        }
        i += 1;
    }
    assert(input.take(i as int) =~= input);
    sorted
}

/// `base` followed by `names[from..]`.
fn join_names_exec(base: &str, names: &Vec<String>, from: usize) -> (res: String)
    requires
        from <= names@.len(),
    ensures
        res@ == join_names(base@, strings_view(names@).skip(from as int)),
{
    let ghost all = strings_view(names@).skip(from as int);
    let mut out = crate::text::to_string(base);
    let mut i = from;
    assert(all.take(0) =~= Seq::<Seq<char>>::empty());
    while i < names.len()
        invariant
            from <= i <= names@.len(),
            all == strings_view(names@).skip(from as int),
            out@ == join_names(base@, all.take(i - from)),
        decreases names@.len() - i,
    {
        out = path_join(out.as_str(), names[i].as_str());
        assert(all.take(i + 1 - from).drop_last() =~= all.take(i - from));
        i += 1;
    }
    assert(all.take(i - from) =~= all);
    out
}

/// One item of the walk of the backup directory.
#[verifier::loop_isolation(false)]
fn restore_one(
    it: &BackupItem,
    paths: &Values,
    entries: &Vec<PackageEntry>,
    pending: &mut Vec<RestoredEntry>,
    dirs: &mut Vec<String>,
) -> (res: Result<(), PackageError>)
    ensures
        match restore_item(
            it.view(),
            paths.map(),
            entries_view(entries@),
            RestoreScan { pending: restored_view(old(pending)@), dirs: strings_view(old(dirs)@) },
        ) {
            Ok(next) => res is Ok && restored_view(final(pending)@) == next.pending && strings_view(
                final(dirs)@,
            ) == next.dirs,
            Err(e) => res matches Err(x) && x.kind() == e,
        },
{
    let n = it.names.len();
    if n == 0 {
        return Err(PackageError::InvalidBackupEntry { path: it.path.clone() });
    }
    if n == 1 {
        if it.kind != FileKind::Directory || !it.unicode {
            return Err(PackageError::InvalidBackupEntry { path: it.path.clone() });
        }
        let variable = &it.names[0];
        let value = match paths.get(variable.as_str()) {
            Some(v) => v,
            None => {
                return Err(
                    PackageError::UnknownBackupVariable { path: it.path.clone(), variable: variable.clone() },
                );
            },
        };
        if !path_is_absolute(value.as_str()) {
            return Err(
                PackageError::RelativeVariablePath { variable: variable.clone(), value: value.clone() },
            );
        }
        let ghost before = strings_view(dirs@);
        dirs.push(it.path.clone());
        assert(strings_view(dirs@) =~= before.push(it.path@));
        return Ok(());
    }
    if it.kind == FileKind::Directory {
        let ghost before = strings_view(dirs@);
        dirs.push(it.path.clone());
        assert(strings_view(dirs@) =~= before.push(it.path@));
        return Ok(());
    }
    let root = match paths.get(it.names[0].as_str()) {
        Some(v) => v,
        None => {
            return Err(PackageError::InvalidBackupEntry { path: it.path.clone() });
        },
    };
    if it.kind == FileKind::Other || !path_is_absolute(root.as_str()) {
        return Err(PackageError::InvalidBackupEntry { path: it.path.clone() });
    }
    let relative = join_names_exec("", &it.names, 1);
    proof {
        reveal_strlit("");
        assert(""@ =~= Seq::<char>::empty());
    }
    if !it.unicode {
        return Err(PackageError::InvalidBackupTarget { path: relative });
    }
    let target_relative = restore_backup_path(relative.as_str())?;
    let back = reverse_backup_path(target_relative.as_str())?;
    if !path_equal(back.as_str(), relative.as_str()) {
        return Err(PackageError::InvalidBackupEntry { path: it.path.clone() });
    }
    let target = path_join(root.as_str(), target_relative.as_str());
    let ghost pv = restored_view(pending@);
    let mut j: usize = 0;
    while j < pending.len()
        invariant
            j <= pending@.len(),
            pv == restored_view(pending@),
            forall|k: int| 0 <= k < j ==> !path_eq(#[trigger] pv[k].1, target@),
        decreases pending@.len() - j,
    {
        if path_equal(pending[j].target.as_str(), target.as_str()) {
            assert(pv[j as int].1 == pending@[j as int].target@);
            assert(path_eq(pv[j as int].1, target@));
            proof {
                let iv = it.view();
                let acc = RestoreScan { pending: restored_view(old(pending)@), dirs: strings_view(old(dirs)@) };
                assert(acc.pending == pv);
                assert(iv.names.len() >= 2);
                assert(iv.kind != FileKind::Directory);
                assert(paths.map().contains_key(iv.names[0]));
                assert(is_absolute(paths.map()[iv.names[0]]));
                let rel = join_names(Seq::empty(), iv.names.skip(1));
                assert(rel == relative@);
                assert(map_backup_spec(rel, false) == Some(target_relative@));
                assert(target@ == join(paths.map()[iv.names[0]], target_relative@));
            }
            return Err(PackageError::DuplicateRestoreTarget { path: target });
        }
        j += 1;
    }
    let ghost es = entries_view(entries@);
    let mut found = false;
    let mut k: usize = 0;
    while k < entries.len()
        invariant
            k <= entries@.len(),
            es == entries_view(entries@),
            found == exists|q: int| 0 <= q < k && path_eq(#[trigger] es[q].target, target@),
        decreases entries@.len() - k,
    {
        let same = path_equal(entries[k].target.as_str(), target.as_str());
        assert(es[k as int].target == entries@[k as int].target@);
        if same {
            found = true;
        }
        proof {
            if same {
                assert(path_eq(es[k as int].target, target@));
            }
            if found {
                assert(exists|q: int| 0 <= q < k + 1 && path_eq(#[trigger] es[q].target, target@));
            } else {
                assert forall|q: int| 0 <= q < k + 1 implies !path_eq(#[trigger] es[q].target, target@) by {
                    if q < k {
                        assert(!(exists|r: int| 0 <= r < k && path_eq(#[trigger] es[r].target, target@)));
                    }
                }
            }
        }
        k += 1;
    }
    if !found {
        return Err(PackageError::BackupTargetNotInPackage { backup: it.path.clone(), target });
    }
    let ghost before = restored_view(pending@);
    pending.push(RestoredEntry { backup: it.path.clone(), target });
    assert(restored_view(pending@) =~= before.push((it.path@, target@)));
    Ok(())
}

/// The directories ordered deepest first (paths of equal depth keeping their
/// order), each path once: the order in which emptied directories are
/// removed.
pub fn deepest_first(dirs: &Vec<String>) -> (res: Vec<String>)
    ensures
        strings_view(res@) == dedup_paths(sort_deepest_first(strings_view(dirs@))),
{
    dedup_directories(sort_directories(dirs))
}

fn sort_directories(dirs: &Vec<String>) -> (res: Vec<String>)
    ensures
        strings_view(res@) == sort_deepest_first(strings_view(dirs@)),
{
    let mut sorted: Vec<String> = Vec::new();
    let ghost input = strings_view(dirs@);
    let mut i: usize = 0;
    assert(input.take(0) =~= Seq::<Seq<char>>::empty());
    while i < dirs.len()
        invariant
            i <= dirs@.len(),
            input == strings_view(dirs@),
            strings_view(sorted@) == sort_deepest_first(input.take(i as int)),
        decreases dirs@.len() - i,
    {
        let x = dirs[i].clone();
        let d = crate::path::component_count(x.as_str());
        let ghost before = strings_view(sorted@);
        let mut k: usize = 0;
        while k < sorted.len() && crate::path::component_count(sorted[k].as_str()) >= d
            invariant
                k <= sorted@.len(),
                before == strings_view(sorted@),
                d == depth(x@),
                first_shallower(before, d as int, 0) == first_shallower(before, d as int, k as int),
            decreases sorted@.len() - k,
        {
            k += 1;
        }
        sorted.insert(k, x);
        proof {
            assert(input.take(i + 1).drop_last() =~= input.take(i as int));
            assert(input.take(i + 1).last() == x@);
            assert(strings_view(sorted@) =~= before.insert(k as int, x@));
        }
        i += 1;
    }
    assert(input.take(i as int) =~= input);
    sorted
}

fn dedup_directories(dirs: Vec<String>) -> (res: Vec<String>)
    ensures
        strings_view(res@) == dedup_paths(strings_view(dirs@)),
{
    let ghost input = strings_view(dirs@);
    let mut out: Vec<String> = Vec::new();
    let mut i: usize = 0;
    assert(input.take(0) =~= Seq::<Seq<char>>::empty());
    while i < dirs.len()
        invariant
            i <= dirs@.len(),
            input == strings_view(dirs@),
            strings_view(out@) == dedup_paths(input.take(i as int)),
        decreases dirs@.len() - i,
    {
        let x = dirs[i].clone();
        let ghost before = strings_view(out@);
        proof {
            assert(input.take(i + 1).drop_last() =~= input.take(i as int));
            assert(input.take(i + 1).last() == x@);
        }
        let n = out.len();
        if n > 0 && path_equal(out[n - 1].as_str(), x.as_str()) {
        } else {
            out.push(x);
            assert(strings_view(out@) =~= before.push(x@));
        }
        i += 1;
    }
    assert(input.take(i as int) =~= input);
    out
}

impl PackagePlan {
    /// Decides how the package's backups below `backup_dir` are restored;
    /// `listing` is what was read there, and `observations[i]` what was
    /// read for entry `i`.
    #[verifier::loop_isolation(false)]
    pub fn restore(
        &self,
        paths: &Values,
        template_values: &Values,
        backup_dir: &str,
        listing: &BackupListing,
        observations: &Vec<EntryObservation>,
    ) -> (res: Result<RestorePlan, PackageError>)
        requires
            observations@.len() == self.entries@.len(),
        ensures
            restoration_matches(
                &res,
                self.name@,
                backup_dir@,
                listing,
                paths.map(),
                entries_view(self.entries@),
                observations@,
                template_values.map(),
            ),
    {
        let package_backup = path_join(backup_dir, self.name.as_str());
        match listing.state {
            BackupRootState::NotFound => {
                return Err(PackageError::BackupPackageNotFound { path: package_backup });
            },
            BackupRootState::NotDirectory => {
                return Err(PackageError::InvalidBackupEntry { path: package_backup });
            },
            BackupRootState::Directory => {},
        }
        let items = sort_backup_items(&listing.items);
        let ghost sorted = items_view(items@);
        let ghost m = paths.map();
        let ghost es = entries_view(self.entries@);
        let mut pending: Vec<RestoredEntry> = Vec::new();
        let mut dirs: Vec<String> = vec![package_backup.clone()];
        let ghost start = RestoreScan { pending: Seq::empty(), dirs: seq![package_backup@] };
        assert(restored_view(pending@) =~= start.pending);
        assert(strings_view(dirs@) =~= start.dirs);
        let ghost whole = restore_scan(sorted, m, es, 0, start);
        let mut i: usize = 0;
        while i < items.len()
            invariant
                i <= sorted.len(),
                sorted == items_view(items@),
                m == paths.map(),
                es == entries_view(self.entries@),
                whole == restore_scan(sorted, m, es, 0, start),
                whole == restore_scan(
                    sorted,
                    m,
                    es,
                    i as int,
                    RestoreScan { pending: restored_view(pending@), dirs: strings_view(dirs@) },
                ),
            decreases sorted.len() - i,
        {
            restore_one(&items[i], paths, &self.entries, &mut pending, &mut dirs)?;
            i += 1;
        }
        if pending.len() == 0 {
            return Err(PackageError::BackupPackageEmpty { path: package_backup });
        }
        let removal = self.remove(template_values, RemoveMode::SkipUnmanaged, observations)?;
        if removal.skipped.len() > 0 {
            return Err(PackageError::RestoreTargetNotManaged { path: removal.skipped[0].target.clone() });
        }
        let sorted_dirs = sort_directories(&dirs);
        let directories = dedup_directories(sorted_dirs);
        Ok(RestorePlan { removal, restored: pending, directories })
    }
}

// ---------------------------------------------------------------------------
// Laws.
// ---------------------------------------------------------------------------
/// A template without a marker renders to itself.
pub proof fn lemma_render_plain(c: Seq<char>, values: Map<Seq<char>, Seq<char>>)
    requires
        find(c, open_marker()) is None,
    ensures
        render_spec(c, values) == Ok::<Seq<char>, Seq<char>>(c),
{
    reveal(render_spec);
}

/// A marker naming a known value renders to that value.
pub proof fn lemma_render_known_marker(name: Seq<char>, values: Map<Seq<char>, Seq<char>>)
    requires
        name.len() > 0,
        !name.contains('\r'),
        !name.contains('\n'),
        !name.contains('='),
        values.contains_key(trim(name)),
    ensures
        render_spec(open_marker() + name + close_marker(), values) == Ok::<Seq<char>, Seq<char>>(
            values[trim(name)],
        ),
{
    let c = open_marker() + name + close_marker();
    let e = name.len() as int;
    assert(c.subrange(0, 2) =~= open_marker());
    assert(find_from(c, open_marker(), 0) == Some(0int));
    assert(c.subrange(e + 2, e + 4) =~= close_marker());
    assert forall|j: int| 2 <= j < e + 2 implies !occurs_at(c, j, close_marker()) by {
        if occurs_at(c, j, close_marker()) {
            assert(c.subrange(j, j + 2)[0] == c[j]);
            assert(c[j] == name[j - 2]);
            assert(name.contains('='));
        }
    }
    lemma_find_from_bounds(c, close_marker(), 2);
    assert(occurs_at(c, e + 2, close_marker()));
    match find_from(c, close_marker(), 2) {
        Some(k) => {
            if k < e + 2 {
                assert(!occurs_at(c, k, close_marker()));
            }
            if k > e + 2 {
                assert(!occurs_at(c, e + 2, close_marker()));
            }
        },
        None => {
            assert(!occurs_at(c, e + 2, close_marker()));
        },
    }
    assert(find_from(c, close_marker(), 2) == Some(e + 2));
    lemma_render_unfold(c, 0, 0, e + 2, values);
    assert(c.skip(0) =~= c);
    assert(c.subrange(2, e + 2) =~= name);
    assert(c.skip(e + 4) =~= Seq::<char>::empty());
    lemma_find_from_bounds(Seq::<char>::empty(), open_marker(), 0);
    lemma_render_no_marker(Seq::<char>::empty(), 0, values);
    assert(Seq::<char>::empty().skip(0) =~= Seq::<char>::empty());
    assert(c.subrange(0, 0) + values[trim(name)] + Seq::<char>::empty() =~= values[trim(name)]);
}

/// Whether restoring changes the name `name` (it begins with `dot-` and
/// goes on after it).
pub open spec fn restore_renames(name: Seq<char>) -> bool {
    starts_with(name, dot_prefix()) && name.len() > dot_prefix().len()
}

/// A target file's name comes back from its backup name: `.x` is backed up as
/// `dot-x`, which restores to `.x`; only a name such as `dot-x` itself does not.
pub proof fn lemma_backup_name_round_trip(name: Seq<char>)
    requires
        !restore_renames(name),
    ensures
        backup_name(backup_name(name, true), false) == name,
{
    if name.len() > 1 && name[0] == '.' {
        let b = dot_prefix() + name.skip(1);
        assert(b.take(4) =~= dot_prefix());
        assert(seq!['.'] + b.skip(4) =~= name);
    } else {
        assert(backup_name(name, true) == name);
    }
}

/// A backup name of a plain name is plain.
pub proof fn lemma_backup_name_plain(name: Seq<char>)
    requires
        plain_name(name),
    ensures
        plain_name(backup_name(name, true)),
{
    if name.len() > 1 && name[0] == '.' {
        let b = dot_prefix() + name.skip(1);
        assert(b.len() >= 5);
        assert(!b.contains('/')) by {
            if b.contains('/') {
                let k = choose|k: int| 0 <= k < b.len() && b[k] == '/';
                if k >= 4 {
                    assert(name[k - 3] == '/');
                }
            }
        }
        assert(b != dot()) by {
            assert(b.len() != dot().len());
        }
        assert(b != dot_dot()) by {
            assert(b.len() != dot_dot().len());
        }
    }
}

/// A name without separators that is not empty.
pub open spec fn piece_name(n: Seq<char>) -> bool {
    n.len() > 0 && !n.contains('/')
}

/// Names without separators, joined one after another, are the pieces of
/// the result.
pub proof fn lemma_join_names_segments(names: Seq<Seq<char>>)
    requires
        names.len() > 0,
        forall|i: int| 0 <= i < names.len() ==> piece_name(#[trigger] names[i]),
    ensures
        segments(join_names(Seq::empty(), names)) == names,
        !is_absolute(join_names(Seq::empty(), names)),
        join_names(Seq::empty(), names).len() > 0,
        join_names(Seq::empty(), names).last() != '/',
    decreases names.len(),
{
    let x = join_names(Seq::empty(), names);
    let n = names.last();
    assert(piece_name(names[names.len() - 1]));
    assert(n[0] != '/') by {
        if n[0] == '/' {
            assert(n.contains('/'));
        }
    }
    assert(n.last() != '/') by {
        if n.last() == '/' {
            assert(n[n.len() - 1] == '/');
        }
    }
    if names.len() == 1 {
        assert(names.drop_last() =~= Seq::<Seq<char>>::empty());
        assert(join_names(Seq::empty(), names.drop_last()) == Seq::<char>::empty());
        assert(!is_absolute(n));
        assert(x == n);
        lemma_segments_single(n);
        assert(names =~= seq![n]);
    } else {
        let base = join_names(Seq::empty(), names.drop_last());
        assert forall|i: int| 0 <= i < names.drop_last().len() implies piece_name(
            #[trigger] names.drop_last()[i],
        ) by {
            assert(names.drop_last()[i] == names[i]);
        }
        lemma_join_names_segments(names.drop_last());
        assert(x == base + seq!['/'] + n);
        lemma_segments_append(base, n);
        assert(names.drop_last().push(n) =~= names);
        assert(x[0] == base[0]);
        assert(x.last() == n.last());
    }
}

/// Joining names to a base is joining their path to it.
pub proof fn lemma_join_names_base(base: Seq<char>, names: Seq<Seq<char>>)
    requires
        base.len() > 0,
        names.len() > 0,
        forall|i: int| 0 <= i < names.len() ==> piece_name(#[trigger] names[i]),
    ensures
        join_names(base, names) == join(base, join_names(Seq::empty(), names)),
    decreases names.len(),
{
    let n = names.last();
    assert(piece_name(names[names.len() - 1]));
    assert(!is_absolute(n)) by {
        if is_absolute(n) {
            assert(n.contains('/'));
        }
    }
    if names.len() == 1 {
        assert(names.drop_last() =~= Seq::<Seq<char>>::empty());
        assert(join_names(Seq::empty(), names.drop_last()) == Seq::<char>::empty());
        assert(join_names(base, names.drop_last()) == base);
    } else {
        let rest = names.drop_last();
        assert forall|i: int| 0 <= i < rest.len() implies piece_name(#[trigger] rest[i]) by {
            assert(rest[i] == names[i]);
        }
        lemma_join_names_base(base, rest);
        lemma_join_names_segments(rest);
        let j = join_names(Seq::empty(), rest);
        assert(join_names(Seq::empty(), names) == j + seq!['/'] + n);
        let bj = join(base, j);
        if base.last() == '/' {
            assert(bj == base + j);
            assert(bj.last() == j.last());
            assert(join(bj, n) =~= base + (j + seq!['/'] + n));
        } else {
            assert(bj == base + seq!['/'] + j);
            assert(bj.last() == j.last());
            assert(join(bj, n) =~= base + seq!['/'] + (j + seq!['/'] + n));
        }
    }
}

/// Plain names joined one after another come back as the same components.
pub proof fn lemma_join_names_components(names: Seq<Seq<char>>)
    requires
        names.len() > 0,
        forall|i: int| 0 <= i < names.len() ==> plain_name(#[trigger] names[i]),
    ensures
        segments(join_names(Seq::empty(), names)) == names,
        !is_absolute(join_names(Seq::empty(), names)),
        components(join_names(Seq::empty(), names)) == names.map_values(|n: Seq<char>| Comp::Normal(n)),
{
    let x = join_names(Seq::empty(), names);
    assert forall|i: int| 0 <= i < names.len() implies piece_name(#[trigger] names[i]) by {
        assert(plain_name(names[i]));
    }
    lemma_join_names_segments(names);
    lemma_plain_segments_components(names);
    assert(components(x) =~= segments_components(segments(x)));
}

/// What a relative path is backed up as restores to the same path, unless
/// one of its names is such as `dot-x`: backing up and restoring are inverse.
pub proof fn lemma_backup_path_round_trip(path: Seq<char>)
    requires
        map_backup_spec(path, true) is Some,
        forall|i: int|
            0 <= i < components(path).len() ==> !restore_renames(
                (#[trigger] components(path)[i])->Normal_0,
            ),
    ensures
        map_backup_spec(map_backup_spec(path, true)->0, false) is Some,
        path_eq(map_backup_spec(map_backup_spec(path, true)->0, false)->0, path),
        map_backup_spec(map_backup_spec(path, true)->0, false)->0 == join_names(
            Seq::empty(),
            components(path).map_values(|c: Comp| c->Normal_0),
        ),
{
    let cs = components(path);
    let names = cs.map_values(|c: Comp| backup_name(c->Normal_0, true));
    let b = join_names(Seq::empty(), names);
    lemma_normal_components_plain(path);
    assert forall|i: int| 0 <= i < names.len() implies plain_name(#[trigger] names[i]) by {
        assert(cs[i] is Normal);
        lemma_backup_name_plain(cs[i]->Normal_0);
    }
    lemma_join_names_components(names);
    let bc = components(b);
    assert(bc == names.map_values(|n: Seq<char>| Comp::Normal(n)));
    assert forall|i: int| 0 <= i < bc.len() implies (#[trigger] bc[i]) is Normal by {
        assert(bc[i] == Comp::Normal(names[i]));
    }
    let back = bc.map_values(|c: Comp| backup_name(c->Normal_0, false));
    let originals = cs.map_values(|c: Comp| c->Normal_0);
    assert forall|i: int| 0 <= i < back.len() implies back[i] == originals[i] by {
        assert(bc[i] == Comp::Normal(names[i]));
        lemma_backup_name_round_trip(cs[i]->Normal_0);
    }
    assert(back =~= originals);
    assert forall|i: int| 0 <= i < originals.len() implies plain_name(#[trigger] originals[i]) by {
        assert(cs[i] is Normal);
    }
    lemma_join_names_components(originals);
    assert(originals.map_values(|n: Seq<char>| Comp::Normal(n)) =~= cs);
}

/// A target that is backed up comes back to itself: its backup file lies
/// under the package's backup directory, in the directory of its nearest
/// configured path, and restoring that file passes restore's own check and
/// moves it to a path equal to the target. Only a target whose path below
/// its configured path holds a name such as `dot-x` is restored elsewhere.
pub proof fn lemma_backup_restores_target(
    name: Seq<char>,
    target: Seq<char>,
    m: Map<Seq<char>, Seq<char>>,
    backup_dir: Seq<char>,
)
    requires
        backup_path_spec(name, target, m, backup_dir) is Ok,
        forall|i: int|
            0 <= i < components((nearest_spec(target, m)->0).1).len() ==> !restore_renames(
                (#[trigger] components((nearest_spec(target, m)->0).1)[i])->Normal_0,
            ),
    ensures
        ({
            let (variable, relative) = nearest_spec(target, m)->0;
            let backup = map_backup_spec(relative, true)->0;
            &&& backup_path_spec(name, target, m, backup_dir)->Ok_0 == join(
                join(join(backup_dir, name), variable),
                backup,
            )
            &&& map_backup_spec(backup, false) is Some
            &&& map_backup_spec(map_backup_spec(backup, false)->0, true) == Some(backup)
            &&& path_eq(join(m[variable], map_backup_spec(backup, false)->0), target)
        }),
{
    let (variable, relative) = nearest_spec(target, m)->0;
    let n = choose|n: Seq<char>| is_nearest(target, m, n);
    assert(variable == n);
    let root = m[variable];
    assert(holds_target(target, root));
    let k = components(root).len() as int;
    let tc = components(target);
    let cs = tc.skip(k);
    assert(relative == crate::path::render(cs));
    crate::path::lemma_absolute_components(root);
    assert(tc.take(k) == components(root));
    assert(target.len() > 0 && target[0] == '/') by {
        if !is_absolute(target) {
            assert(components(target)[0] == components(root)[0]);
            assert(!is_absolute(target) ==> components(target) == segments_components(
                segments(target),
            ));
            crate::path::lemma_segments_components_kinds(segments(target));
        }
    }
    crate::path::lemma_absolute_components(target);
    lemma_normal_components_plain(target);
    assert(map_backup_spec(relative, true) is Some);
    assert(cs.len() > 0) by {
        if cs.len() == 0 {
            assert(cs =~= Seq::<Comp>::empty());
            assert(relative == Seq::<char>::empty());
            let e = seq![Seq::<char>::empty()];
            assert(segments(relative) == e);
            assert(e.drop_last() =~= Seq::<Seq<char>>::empty());
            assert(segments_components(e.drop_last()) == Seq::<Comp>::empty());
            assert(e.last() == Seq::<char>::empty());
            assert(crate::path::segment_component(e.last(), 0) == Seq::<Comp>::empty());
            assert(segments_components(e) =~= Seq::<Comp>::empty());
            assert(components(relative) =~= Seq::<Comp>::empty());
        }
    }
    assert forall|i: int| 0 <= i < cs.len() implies crate::path::steady_comp(#[trigger] cs[i]) by {
        assert(cs[i] == tc[i + k]);
        assert(!(tc[i + k] is Root) && !(tc[i + k] is Cur));
    }
    crate::path::lemma_render_steady(cs);
    assert(components(relative) == cs);
    let backup = map_backup_spec(relative, true)->0;
    lemma_backup_path_round_trip(relative);
    let restored = map_backup_spec(backup, false)->0;
    let originals = cs.map_values(|c: Comp| c->Normal_0);
    assert(restored == join_names(Seq::empty(), originals));
    assert forall|i: int| 0 <= i < originals.len() implies plain_name(#[trigger] originals[i]) by {
        assert(cs[i] is Normal);
    }
    lemma_join_names_components(originals);
    assert(components(restored) == components(relative));
    assert(map_backup_spec(restored, true) == map_backup_spec(relative, true));
    assert forall|i: int| 0 <= i < segments(restored).len() implies crate::path::steady_segment(
        #[trigger] segments(restored)[i],
    ) by {
        assert(segments(restored)[i] == originals[i]);
    }
    crate::path::lemma_join_components(root, restored);
    assert(components(root) + cs =~= tc);
}

/// An entry whose target already is the entry is left as up to date, in
/// every mode.
pub proof fn lemma_apply_leaves_current_target(
    e: EntryView,
    o: &EntryObservation,
    values: Map<Seq<char>, Seq<char>>,
    mode: ApplyMode,
    backup: Option<Seq<char>>,
)
    requires
        rendered_spec(e, o, values) is Ok,
        is_current_spec(e, rendered_spec(e, o, values)->Ok_0, o.target),
    ensures
        apply_entry_spec(e, o, values, mode, backup) == Ok::<StepView, PkgErr>(
            StepView::Skip(up_to_date()),
        ),
{
}

/// What an installed entry's target reads as afterwards: a link to the
/// package file, or a regular file holding the rendered text.
pub open spec fn reads_as_installed(e: EntryView, contents: Option<Seq<char>>, target: TargetState) -> bool {
    match contents {
        None => target matches TargetState::Symlink(Some(l)) && l@ == e.source,
        Some(t) => target matches TargetState::File(Some(x)) && x@ == t,
    }
}

/// Installing an entry makes its target the entry: once the target reads as
/// what was installed, the entry is managed (removing the package removes
/// it) and installing again, in any mode, leaves it as up to date.
pub proof fn lemma_installed_entry_is_up_to_date(
    e: EntryView,
    o: &EntryObservation,
    after: &EntryObservation,
    values: Map<Seq<char>, Seq<char>>,
    mode: ApplyMode,
    backup: Option<Seq<char>>,
    next_mode: ApplyMode,
    next_backup: Option<Seq<char>>,
)
    requires
        apply_entry_spec(e, o, values, mode, backup) matches Ok(StepView::Install(_, r))
            && reads_as_installed(e, r, after.target),
        source_text_view(after) == source_text_view(o),
    ensures
        rendered_spec(e, after, values) is Ok,
        is_current_spec(e, rendered_spec(e, after, values)->Ok_0, after.target),
        apply_entry_spec(e, after, values, next_mode, next_backup) == Ok::<StepView, PkgErr>(
            StepView::Skip(up_to_date()),
        ),
{
    assert(rendered_spec(e, after, values) == rendered_spec(e, o, values));
    lemma_apply_leaves_current_target(e, after, values, next_mode, next_backup);
}

/// The normal mode never replaces what stands at a target, and the
/// semi-force mode replaces only links.
pub proof fn lemma_modes_limit_replacement(
    e: EntryView,
    o: &EntryObservation,
    values: Map<Seq<char>, Seq<char>>,
    mode: ApplyMode,
    backup: Option<Seq<char>>,
)
    ensures
        apply_entry_spec(e, o, values, mode, backup) matches Ok(StepView::Install(r, _)) ==> (
        mode == ApplyMode::Normal ==> r is Nothing),
        apply_entry_spec(e, o, values, mode, backup) matches Ok(StepView::Install(r, _)) ==> (
        mode == ApplyMode::SemiForce ==> (r is Nothing || o.target is Symlink)),
{
}

/// A backup path that is taken is never written over: the entry fails
/// instead.
pub proof fn lemma_backup_not_overwritten(
    e: EntryView,
    o: &EntryObservation,
    values: Map<Seq<char>, Seq<char>>,
    mode: ApplyMode,
    b: Seq<char>,
)
    requires
        o.backup_exists,
    ensures
        !(apply_entry_spec(e, o, values, mode, Some(b)) matches Ok(StepView::Install(ReplView::Backup(_), _))),
{
}

proof fn lemma_split_all_managed(
    es: Seq<EntryView>,
    os: Seq<EntryObservation>,
    values: Map<Seq<char>, Seq<char>>,
    i: int,
)
    requires
        0 <= i <= es.len(),
    ensures
        split_managed(es, os, values, i) matches Ok((m, u)) ==> (u.len() == 0 ==> m == es.skip(i)),
    decreases es.len() - i,
{
    if i < es.len() {
        lemma_split_all_managed(es, os, values, i + 1);
        if let Ok((m, u)) = split_managed(es, os, values, i) {
            if u.len() == 0 {
                assert(es.skip(i) =~= seq![es[i]] + es.skip(i + 1));
            }
        }
    } else {
        assert(es.skip(i) =~= Seq::<EntryView>::empty());
    }
}

/// A safe removal succeeds only when every target still is its entry, and
/// then removes every entry, in order and nothing else.
pub proof fn lemma_safe_remove_removes_all(
    es: Seq<EntryView>,
    os: Seq<EntryObservation>,
    values: Map<Seq<char>, Seq<char>>,
)
    ensures
        remove_spec(es, os, values, RemoveMode::Safe) matches Ok((m, u)) ==> u.len() == 0 && m == es,
{
    lemma_split_all_managed(es, os, values, 0);
    assert(es.skip(0) =~= es);
}

/// What an entry's target reads as after a step of an installation: an
/// installed entry reads as installed; a skipped one is as it was; the
/// package file is unchanged.
pub open spec fn settled(e: EntryView, o: &EntryObservation, st: StepView, after: &EntryObservation) -> bool {
    &&& source_text_view(after) == source_text_view(o)
    &&& match st {
        StepView::Install(_, r) => reads_as_installed(e, r, after.target),
        StepView::Skip(_) => after.target == o.target && after.backup_exists == o.backup_exists,
    }
}

/// The step that installing again takes after `st`: an installed entry is
/// up to date; a skipped one is skipped for the same reason.
pub open spec fn again(st: StepView) -> StepView {
    match st {
        StepView::Install(..) => StepView::Skip(up_to_date()),
        StepView::Skip(r) => StepView::Skip(r),
    }
}

proof fn lemma_apply_twice_from(
    name: Seq<char>,
    es: Seq<EntryView>,
    os: Seq<EntryObservation>,
    after: Seq<EntryObservation>,
    values: Map<Seq<char>, Seq<char>>,
    mode: ApplyMode,
    paths: Map<Seq<char>, Seq<char>>,
    backup_dir: Option<Seq<char>>,
    i: int,
)
    requires
        0 <= i <= es.len(),
        os.len() == es.len(),
        after.len() == es.len(),
        apply_steps(name, es, os, values, mode, paths, backup_dir, i).1 is None,
        forall|k: int|
            0 <= k < es.len() - i ==> settled(
                es[i + k],
                &os[i + k],
                #[trigger] apply_steps(name, es, os, values, mode, paths, backup_dir, i).0[k],
                &after[i + k],
            ),
    ensures
        ({
            let s1 = apply_steps(name, es, os, values, mode, paths, backup_dir, i).0;
            let r2 = apply_steps(name, es, after, values, mode, paths, backup_dir, i);
            &&& s1.len() == es.len() - i
            &&& r2.1 is None
            &&& r2.0.len() == s1.len()
            &&& forall|k: int| 0 <= k < s1.len() ==> #[trigger] r2.0[k] == again(s1[k])
        }),
    decreases es.len() - i,
{
    if i < es.len() {
        let b = entry_backup(name, es[i].target, paths, backup_dir);
        let s1 = apply_steps(name, es, os, values, mode, paths, backup_dir, i).0;
        let rest1 = apply_steps(name, es, os, values, mode, paths, backup_dir, i + 1).0;
        let bb = b->Ok_0;
        let st = apply_entry_spec(es[i], &os[i], values, mode, bb)->Ok_0;
        assert(s1 == seq![st] + rest1);
        assert(s1[0] == st);
        lemma_apply_steps_at(name, es, os, values, mode, paths, backup_dir, i + 1);
        match st {
            StepView::Install(_, _) => {
                lemma_installed_entry_is_up_to_date(es[i], &os[i], &after[i], values, mode, bb, mode, bb);
            },
            StepView::Skip(_) => {
                assert(rendered_spec(es[i], &after[i], values) == rendered_spec(es[i], &os[i], values));
            },
        }
        assert forall|k: int| 0 <= k < es.len() - (i + 1) implies settled(
            es[i + 1 + k],
            &os[i + 1 + k],
            #[trigger] apply_steps(name, es, os, values, mode, paths, backup_dir, i + 1).0[k],
            &after[i + 1 + k],
        ) by {
            assert(s1[k + 1] == rest1[k]);
            assert(settled(es[i + (k + 1)], &os[i + (k + 1)], s1[k + 1], &after[i + (k + 1)]));
        }
        lemma_apply_twice_from(name, es, os, after, values, mode, paths, backup_dir, i + 1);
        let r2 = apply_steps(name, es, after, values, mode, paths, backup_dir, i);
        let rest2 = apply_steps(name, es, after, values, mode, paths, backup_dir, i + 1).0;
        assert(r2.0 == seq![again(st)] + rest2);
        assert forall|k: int| 0 <= k < s1.len() implies #[trigger] r2.0[k] == again(s1[k]) by {
            if k > 0 {
                assert(r2.0[k] == rest2[k - 1]);
                assert(s1[k] == rest1[k - 1]);
            }
        }
    }
}

/// Steps that only skip install nothing and back nothing up.
proof fn lemma_all_skipped(es: Seq<EntryView>, st: Seq<StepView>)
    requires
        forall|k: int| 0 <= k < st.len() ==> (#[trigger] st[k]) is Skip,
    ensures
        applied_of(es, st).len() == 0,
        backups_of(es, st).len() == 0,
    decreases st.len(),
{
    if st.len() > 0 {
        assert forall|k: int| 0 <= k < st.drop_last().len() implies (#[trigger] st.drop_last()[k]) is Skip by {
            assert(st.drop_last()[k] == st[k]);
        }
        lemma_all_skipped(es, st.drop_last());
        assert(st[st.len() - 1] is Skip);
    }
}

/// Installing a package again, once its targets read as the first
/// installation left them, changes nothing: it succeeds, installs and backs
/// up nothing, and skips every entry, those it installed as up to date and
/// the others for the reason given the first time.
pub proof fn lemma_apply_is_idempotent(
    name: Seq<char>,
    es: Seq<EntryView>,
    os: Seq<EntryObservation>,
    after: Seq<EntryObservation>,
    values: Map<Seq<char>, Seq<char>>,
    mode: ApplyMode,
    paths: Map<Seq<char>, Seq<char>>,
    backup_dir: Option<Seq<char>>,
)
    requires
        os.len() == es.len(),
        after.len() == es.len(),
        apply_steps(name, es, os, values, mode, paths, backup_dir, 0).1 is None,
        forall|k: int|
            0 <= k < es.len() ==> settled(
                es[k],
                &os[k],
                #[trigger] apply_steps(name, es, os, values, mode, paths, backup_dir, 0).0[k],
                &after[k],
            ),
    ensures
        ({
            let s1 = apply_steps(name, es, os, values, mode, paths, backup_dir, 0).0;
            let (s2, failure) = apply_steps(name, es, after, values, mode, paths, backup_dir, 0);
            &&& failure is None
            &&& s2.len() == es.len()
            &&& forall|k: int| 0 <= k < es.len() ==> #[trigger] s2[k] == again(s1[k])
            &&& applied_of(es, s2).len() == 0
            &&& backups_of(es, s2).len() == 0
        }),
{
    let s1 = apply_steps(name, es, os, values, mode, paths, backup_dir, 0).0;
    assert forall|k: int| 0 <= k < es.len() - 0 implies settled(
        es[0 + k],
        &os[0 + k],
        #[trigger] apply_steps(name, es, os, values, mode, paths, backup_dir, 0).0[k],
        &after[0 + k],
    ) by {
        assert(settled(es[k], &os[k], s1[k], &after[k]));
    }
    lemma_apply_twice_from(name, es, os, after, values, mode, paths, backup_dir, 0);
    let s2 = apply_steps(name, es, after, values, mode, paths, backup_dir, 0).0;
    assert forall|k: int| 0 <= k < s2.len() implies (#[trigger] s2[k]) is Skip by {
        assert(s2[k] == again(s1[k]));
    }
    lemma_all_skipped(es, s2);
}

proof fn lemma_split_all_current(
    es: Seq<EntryView>,
    os: Seq<EntryObservation>,
    values: Map<Seq<char>, Seq<char>>,
    i: int,
)
    requires
        0 <= i <= es.len(),
        forall|k: int|
            i <= k < es.len() ==> (#[trigger] rendered_spec(es[k], &os[k], values)) is Ok && is_current_spec(
                es[k],
                rendered_spec(es[k], &os[k], values)->Ok_0,
                os[k].target,
            ),
    ensures
        split_managed(es, os, values, i) == Ok::<(Seq<EntryView>, Seq<EntryView>), PkgErr>(
            (es.skip(i), Seq::empty()),
        ),
    decreases es.len() - i,
{
    if i < es.len() {
        lemma_split_all_current(es, os, values, i + 1);
        assert(rendered_spec(es[i], &os[i], values) is Ok);
        assert(es.skip(i) =~= seq![es[i]] + es.skip(i + 1));
    } else {
        assert(es.skip(i) =~= Seq::<EntryView>::empty());
    }
}

/// After an installation that installed every entry or found it up to date,
/// once the targets read as it left them, a safe removal succeeds and
/// removes every entry, in order.
pub proof fn lemma_remove_after_apply(
    name: Seq<char>,
    es: Seq<EntryView>,
    os: Seq<EntryObservation>,
    after: Seq<EntryObservation>,
    values: Map<Seq<char>, Seq<char>>,
    mode: ApplyMode,
    paths: Map<Seq<char>, Seq<char>>,
    backup_dir: Option<Seq<char>>,
)
    requires
        os.len() == es.len(),
        after.len() == es.len(),
        apply_steps(name, es, os, values, mode, paths, backup_dir, 0).1 is None,
        forall|k: int|
            0 <= k < es.len() ==> settled(
                es[k],
                &os[k],
                #[trigger] apply_steps(name, es, os, values, mode, paths, backup_dir, 0).0[k],
                &after[k],
            ),
        forall|k: int|
            0 <= k < es.len() ==> (#[trigger] apply_steps(name, es, os, values, mode, paths, backup_dir, 0).0[k]) is Install
                || apply_steps(name, es, os, values, mode, paths, backup_dir, 0).0[k] == StepView::Skip(up_to_date()),
    ensures
        remove_spec(es, after, values, RemoveMode::Safe) == Ok::<(Seq<EntryView>, Seq<EntryView>), PkgErr>(
            (es, Seq::empty()),
        ),
{
    let s1 = apply_steps(name, es, os, values, mode, paths, backup_dir, 0).0;
    assert forall|k: int| 0 <= k < es.len() - 0 implies settled(
        es[0 + k],
        &os[0 + k],
        #[trigger] apply_steps(name, es, os, values, mode, paths, backup_dir, 0).0[k],
        &after[0 + k],
    ) by {
        assert(settled(es[k], &os[k], s1[k], &after[k]));
    }
    lemma_apply_twice_from(name, es, os, after, values, mode, paths, backup_dir, 0);
    lemma_apply_steps_at(name, es, os, values, mode, paths, backup_dir, 0);
    assert(up_to_date() != already_exists()) by {
        assert(up_to_date()[0] != already_exists()[0]);
    }
    assert forall|k: int| 0 <= k < es.len() implies (#[trigger] rendered_spec(es[k], &after[k], values)) is Ok
        && is_current_spec(es[k], rendered_spec(es[k], &after[k], values)->Ok_0, after[k].target) by {
        let b = entry_backup(name, es[k].target, paths, backup_dir)->Ok_0;
        assert(apply_entry_spec(es[k], &os[k], values, mode, b) == Ok::<StepView, PkgErr>(s1[k]));
        assert(settled(es[k], &os[k], s1[k], &after[k]));
        match s1[k] {
            StepView::Install(_, _) => {
                lemma_installed_entry_is_up_to_date(es[k], &os[k], &after[k], values, mode, b, mode, b);
            },
            StepView::Skip(_) => {
                assert(rendered_spec(es[k], &after[k], values) == rendered_spec(es[k], &os[k], values));
            },
        }
    }
    lemma_split_all_current(es, after, values, 0);
    assert(es.skip(0) =~= es);
}

/// The names below a target's nearest configured path restore as written
/// (none is such as `dot-x`).
pub open spec fn restores_as_written(target: Seq<char>, m: Map<Seq<char>, Seq<char>>) -> bool {
    forall|i: int|
        0 <= i < components((nearest_spec(target, m)->0).1).len() ==> !restore_renames(
            (#[trigger] components((nearest_spec(target, m)->0).1)[i])->Normal_0,
        )
}

/// Where a step moved a target `target` to a backup, that backup is the
/// target's backup path, and unless a name below the target's configured path
/// is such as `dot-x`, the file there restores (restore's own check passing)
/// to a path equal to the target.
pub open spec fn backup_restores(
    name: Seq<char>,
    target: Seq<char>,
    m: Map<Seq<char>, Seq<char>>,
    backup_dir: Seq<char>,
    st: StepView,
) -> bool {
    match st {
        StepView::Install(ReplView::Backup(b), _) => {
            &&& backup_path_spec(name, target, m, backup_dir) == Ok::<Seq<char>, PkgErr>(b)
            &&& restores_as_written(target, m) ==> {
                let (variable, relative) = nearest_spec(target, m)->0;
                let mapped = map_backup_spec(relative, true)->0;
                &&& b == join(join(join(backup_dir, name), variable), mapped)
                &&& map_backup_spec(mapped, false) is Some
                &&& map_backup_spec(map_backup_spec(mapped, false)->0, true) == Some(mapped)
                &&& path_eq(join(m[variable], map_backup_spec(mapped, false)->0), target)
            }
        },
        _ => true,
    }
}

/// The walk of a backup directory never refuses a target as unmanaged.
proof fn lemma_restore_scan_not_unmanaged(
    items: Seq<ItemView>,
    m: Map<Seq<char>, Seq<char>>,
    es: Seq<EntryView>,
    i: int,
    acc: RestoreScan,
)
    ensures
        !(restore_scan(items, m, es, i, acc) matches Err(PkgErr::RestoreTargetNotManaged { .. })),
    decreases items.len() - i,
{
    if 0 <= i < items.len() {
        if let Ok(next) = restore_item(items[i], m, es, acc) {
            lemma_restore_scan_not_unmanaged(items, m, es, i + 1, next);
        }
    }
}

/// Restoring after an installation with backups into `backup_dir` that
/// installed every entry or found it up to date, once the targets read as it
/// left them: no target is refused as unmanaged, a restore that succeeds
/// removes every entry, and every backup made restores to its target (see
/// `backup_restores`).
pub proof fn lemma_restore_after_backup(
    name: Seq<char>,
    es: Seq<EntryView>,
    os: Seq<EntryObservation>,
    after: Seq<EntryObservation>,
    values: Map<Seq<char>, Seq<char>>,
    mode: ApplyMode,
    paths: Map<Seq<char>, Seq<char>>,
    backup_dir: Seq<char>,
    listing: &BackupListing,
)
    requires
        os.len() == es.len(),
        after.len() == es.len(),
        apply_steps(name, es, os, values, mode, paths, Some(backup_dir), 0).1 is None,
        forall|k: int|
            0 <= k < es.len() ==> settled(
                es[k],
                &os[k],
                #[trigger] apply_steps(name, es, os, values, mode, paths, Some(backup_dir), 0).0[k],
                &after[k],
            ),
        forall|k: int|
            0 <= k < es.len() ==> (#[trigger] apply_steps(name, es, os, values, mode, paths, Some(backup_dir), 0).0[k]) is Install
                || apply_steps(name, es, os, values, mode, paths, Some(backup_dir), 0).0[k] == StepView::Skip(
                up_to_date(),
            ),
    ensures
        !(restore_spec(name, backup_dir, listing, paths, es, after, values) matches Err(
            PkgErr::RestoreTargetNotManaged { .. },
        )),
        restore_spec(name, backup_dir, listing, paths, es, after, values) matches Ok((removal, _, _))
            ==> removal == (es, Seq::<EntryView>::empty()),
        forall|k: int|
            0 <= k < es.len() ==> backup_restores(
                name,
                es[k].target,
                paths,
                backup_dir,
                #[trigger] apply_steps(name, es, os, values, mode, paths, Some(backup_dir), 0).0[k],
            ),
{
    lemma_remove_after_apply(name, es, os, after, values, mode, paths, Some(backup_dir));
    assert(split_managed(es, after, values, 0) == Ok::<(Seq<EntryView>, Seq<EntryView>), PkgErr>(
        (es, Seq::empty()),
    ));
    let package_backup = join(backup_dir, name);
    lemma_restore_scan_not_unmanaged(
        sort_items(items_view(listing.items@)),
        paths,
        es,
        0,
        RestoreScan { pending: Seq::empty(), dirs: seq![package_backup] },
    );
    lemma_apply_steps_at(name, es, os, values, mode, paths, Some(backup_dir), 0);
    let s1 = apply_steps(name, es, os, values, mode, paths, Some(backup_dir), 0).0;
    assert forall|k: int| 0 <= k < es.len() implies backup_restores(
        name,
        es[k].target,
        paths,
        backup_dir,
        #[trigger] apply_steps(name, es, os, values, mode, paths, Some(backup_dir), 0).0[k],
    ) by {
        let eb = entry_backup(name, es[k].target, paths, Some(backup_dir));
        assert(apply_entry_spec(es[k], &os[k], values, mode, eb->Ok_0) == Ok::<StepView, PkgErr>(s1[k - 0]));
        if s1[k] matches StepView::Install(ReplView::Backup(b), _) {
            if restores_as_written(es[k].target, paths) {
                lemma_backup_restores_target(name, es[k].target, paths, backup_dir);
            }
        }
    }
}

/// Without a failure, the step for each entry is what deciding on that entry
/// gives.
proof fn lemma_apply_steps_at(
    name: Seq<char>,
    es: Seq<EntryView>,
    os: Seq<EntryObservation>,
    values: Map<Seq<char>, Seq<char>>,
    mode: ApplyMode,
    paths: Map<Seq<char>, Seq<char>>,
    backup_dir: Option<Seq<char>>,
    i: int,
)
    requires
        0 <= i <= es.len(),
        apply_steps(name, es, os, values, mode, paths, backup_dir, i).1 is None,
    ensures
        apply_steps(name, es, os, values, mode, paths, backup_dir, i).0.len() == es.len() - i,
        forall|k: int|
            i <= k < es.len() ==> (#[trigger] entry_backup(name, es[k].target, paths, backup_dir)) is Ok
                && apply_entry_spec(
                es[k],
                &os[k],
                values,
                mode,
                entry_backup(name, es[k].target, paths, backup_dir)->Ok_0,
            ) == Ok::<StepView, PkgErr>(apply_steps(name, es, os, values, mode, paths, backup_dir, i).0[k - i]),
    decreases es.len() - i,
{
    if i < es.len() {
        lemma_apply_steps_at(name, es, os, values, mode, paths, backup_dir, i + 1);
        let s = apply_steps(name, es, os, values, mode, paths, backup_dir, i).0;
        let rest = apply_steps(name, es, os, values, mode, paths, backup_dir, i + 1).0;
        let b = entry_backup(name, es[i].target, paths, backup_dir);
        let st = apply_entry_spec(es[i], &os[i], values, mode, b->Ok_0)->Ok_0;
        assert(s == seq![st] + rest);
        assert forall|k: int| i <= k < es.len() implies (#[trigger] entry_backup(name, es[k].target, paths, backup_dir)) is Ok
            && apply_entry_spec(
            es[k],
            &os[k],
            values,
            mode,
            entry_backup(name, es[k].target, paths, backup_dir)->Ok_0,
        ) == Ok::<StepView, PkgErr>(s[k - i]) by {
            if k > i {
                assert(s[k - i] == rest[k - (i + 1)]);
            }
        }
    }
}

/// No entry comes before an earlier one by target.
pub open spec fn sorted_by_target(s: Seq<EntryView>) -> bool {
    forall|i: int, j: int| 0 <= i < j < s.len() ==> !path_lt(#[trigger] s[j].target, #[trigger] s[i].target)
}

proof fn lemma_first_after(s: Seq<EntryView>, t: Seq<char>, i: int)
    requires
        0 <= i <= s.len(),
    ensures
        i <= first_after(s, t, i) <= s.len(),
        forall|j: int| i <= j < first_after(s, t, i) ==> !path_lt(t, #[trigger] s[j].target),
        first_after(s, t, i) < s.len() ==> path_lt(t, s[first_after(s, t, i)].target),
    decreases s.len() - i,
{
    if i < s.len() && !path_lt(t, s[i].target) {
        lemma_first_after(s, t, i + 1);
    }
}

proof fn lemma_insert_sorted(s: Seq<EntryView>, x: EntryView)
    requires
        sorted_by_target(s),
    ensures
        sorted_by_target(s.insert(first_after(s, x.target, 0), x)),
{
    lemma_first_after(s, x.target, 0);
    let k = first_after(s, x.target, 0);
    let n = s.insert(k, x);
    assert forall|i: int, j: int| 0 <= i < j < n.len() implies !path_lt(#[trigger] n[j].target, #[trigger] n[i].target) by {
        if j < k {
            assert(n[i] == s[i] && n[j] == s[j]);
        } else if j == k {
            assert(n[i] == s[i]);
        } else if i < k {
            assert(n[i] == s[i] && n[j] == s[j - 1]);
        } else if i == k {
            assert(n[j] == s[j - 1]);
            if path_lt(s[j - 1].target, x.target) {
                if j - 1 == k {
                    crate::path::lemma_comps_lt_asymmetric(
                        components(s[k].target),
                        components(x.target),
                    );
                } else {
                    crate::path::lemma_comps_lt_transitive(
                        components(s[j - 1].target),
                        components(x.target),
                        components(s[k].target),
                    );
                    assert(!path_lt(s[j - 1].target, s[k].target));
                }
            }
        } else {
            assert(n[i] == s[i - 1] && n[j] == s[j - 1]);
        }
    }
}

/// The stable sort by target orders the entries by target.
pub proof fn lemma_sort_by_target_sorted(s: Seq<EntryView>)
    ensures
        sorted_by_target(sort_by_target(s)),
    decreases s.len(),
{
    if s.len() > 0 {
        lemma_sort_by_target_sorted(s.drop_last());
        lemma_insert_sorted(sort_by_target(s.drop_last()), s.last());
    }
}

proof fn lemma_no_collision(s: Seq<EntryView>, i: int)
    requires
        0 <= i,
        first_collision(s, i) is None,
    ensures
        forall|j: int| i <= j && j + 1 < s.len() ==> !path_eq(#[trigger] s[j].target, s[j + 1].target),
    decreases s.len() - i,
{
    if i + 1 < s.len() {
        lemma_no_collision(s, i + 1);
    }
}

/// Every package that loads has its entries in strictly increasing target
/// order: no two entries are deployed to the same path.
pub proof fn lemma_loaded_targets_increasing(
    pkgs_dir: Seq<char>,
    name: Seq<char>,
    m: Map<Seq<char>, Seq<char>>,
    listing: &PackageListing,
)
    ensures
        load_spec(pkgs_dir, name, m, listing) matches Ok(es) ==> forall|i: int, j: int|
            0 <= i < j < es.len() ==> path_lt(#[trigger] es[i].target, #[trigger] es[j].target),
{
    if let Ok(es) = load_spec(pkgs_dir, name, m, listing) {
        let found = scan_roots(listing.entries@, m, 0, Seq::empty())->Ok_0;
        lemma_sort_by_target_sorted(found);
        lemma_no_collision(es, 0);
        assert forall|i: int| 0 <= i && i + 1 < es.len() implies path_lt(#[trigger] es[i].target, es[i + 1].target) by {
            assert(!path_lt(es[i + 1].target, es[i].target));
            assert(!path_eq(es[i].target, es[i + 1].target));
            crate::path::lemma_comps_lt_total(components(es[i].target), components(es[i + 1].target));
        }
        assert forall|i: int, j: int| 0 <= i < j < es.len() implies path_lt(#[trigger] es[i].target, #[trigger] es[j].target) by {
            lemma_chain(es, i, j);
        }
    }
}

proof fn lemma_chain(es: Seq<EntryView>, i: int, j: int)
    requires
        0 <= i < j < es.len(),
        forall|k: int| 0 <= k && k + 1 < es.len() ==> path_lt(#[trigger] es[k].target, es[k + 1].target),
    ensures
        path_lt(es[i].target, es[j].target),
    decreases j - i,
{
    if j > i + 1 {
        lemma_chain(es, i, j - 1);
        assert(path_lt(es[j - 1].target, es[j].target));
        crate::path::lemma_comps_lt_transitive(
            components(es[i].target),
            components(es[j - 1].target),
            components(es[j].target),
        );
    }
}


proof fn lemma_first_item_after_bounds(s: Seq<ItemView>, names: Seq<Seq<char>>, i: int)
    requires
        0 <= i <= s.len(),
    ensures
        i <= first_item_after(s, names, i) <= s.len(),
    decreases s.len() - i,
{
    if i < s.len() && !names_lt(names, s[i].names) {
        lemma_first_item_after_bounds(s, names, i + 1);
    }
}

/// Sorting the items of a listing keeps them: the same number, each sorted
/// item one of the listing's and each of the listing's among the sorted.
proof fn lemma_sort_items_keeps(s: Seq<ItemView>)
    ensures
        sort_items(s).len() == s.len(),
        forall|j: int| 0 <= j < s.len() ==> s.contains(#[trigger] sort_items(s)[j]),
        forall|i: int| 0 <= i < s.len() ==> sort_items(s).contains(#[trigger] s[i]),
    decreases s.len(),
{
    if s.len() > 0 {
        let d = s.drop_last();
        let x = s.last();
        lemma_sort_items_keeps(d);
        let sorted = sort_items(d);
        let p = first_item_after(sorted, x.names, 0);
        lemma_first_item_after_bounds(sorted, x.names, 0);
        let r = sorted.insert(p, x);
        assert(sort_items(s) == r);
        assert forall|j: int| 0 <= j < s.len() implies s.contains(#[trigger] r[j]) by {
            if j < p {
                assert(r[j] == sorted[j]);
                assert(d.contains(sorted[j]));
                let i = choose|i: int| 0 <= i < d.len() && d[i] == sorted[j];
                assert(s[i] == d[i]);
            } else if j == p {
                assert(r[j] == s[s.len() - 1]);
            } else {
                assert(r[j] == sorted[j - 1]);
                assert(d.contains(sorted[j - 1]));
                let i = choose|i: int| 0 <= i < d.len() && d[i] == sorted[j - 1];
                assert(s[i] == d[i]);
            }
        }
        assert forall|i: int| 0 <= i < s.len() implies r.contains(#[trigger] s[i]) by {
            if i == s.len() - 1 {
                assert(r[p] == x);
            } else {
                assert(d[i] == s[i]);
                assert(sorted.contains(d[i]));
                let j = choose|j: int| 0 <= j < sorted.len() && sorted[j] == d[i];
                if j < p {
                    assert(r[j] == sorted[j]);
                } else {
                    assert(r[j + 1] == sorted[j]);
                }
            }
        }
    }
}

/// Sorting keeps the paths of a listing apart when they were apart.
proof fn lemma_sort_items_distinct(s: Seq<ItemView>)
    requires
        forall|a: int, b: int| 0 <= a < b < s.len() ==> (#[trigger] s[a]).path != (#[trigger] s[b]).path,
    ensures
        forall|a: int, b: int|
            0 <= a < b < s.len() ==> (#[trigger] sort_items(s)[a]).path != (#[trigger] sort_items(s)[b]).path,
    decreases s.len(),
{
    lemma_sort_items_keeps(s);
    if s.len() > 0 {
        let d = s.drop_last();
        let x = s.last();
        assert forall|a: int, b: int| 0 <= a < b < d.len() implies (#[trigger] d[a]).path != (#[trigger] d[b]).path by {
            assert(d[a] == s[a] && d[b] == s[b]);
        }
        lemma_sort_items_distinct(d);
        lemma_sort_items_keeps(d);
        let sorted = sort_items(d);
        let p = first_item_after(sorted, x.names, 0);
        lemma_first_item_after_bounds(sorted, x.names, 0);
        let r = sorted.insert(p, x);
        assert(sort_items(s) == r);
        assert forall|j: int| 0 <= j < sorted.len() implies (#[trigger] sorted[j]).path != x.path by {
            assert(d.contains(sorted[j]));
            let i = choose|i: int| 0 <= i < d.len() && d[i] == sorted[j];
            assert(d[i] == s[i]);
            assert(s[i].path != s[s.len() - 1].path);
        }
        assert forall|a: int, b: int| 0 <= a < b < s.len() implies (#[trigger] r[a]).path != (#[trigger] r[b]).path by {
            if b < p {
                assert(r[a] == sorted[a] && r[b] == sorted[b]);
            } else if b == p {
                assert(r[a] == sorted[a] && r[b] == x);
            } else if a < p {
                assert(r[a] == sorted[a] && r[b] == sorted[b - 1]);
            } else if a == p {
                assert(r[a] == x && r[b] == sorted[b - 1]);
            } else {
                assert(r[a] == sorted[a - 1] && r[b] == sorted[b - 1]);
            }
        }
    }
}

/// Where a step moved its target aside, the backup path.
pub open spec fn moved_to(st: StepView) -> Option<Seq<char>> {
    match st {
        StepView::Install(ReplView::Backup(b), _) => Some(b),
        _ => None,
    }
}

/// `it` is the listed file at the backup path `b` of the target `target`:
/// its names are the components of `b` below the package's backup
/// directory.
pub open spec fn lists_backup_of(
    it: ItemView,
    b: Seq<char>,
    target: Seq<char>,
    m: Map<Seq<char>, Seq<char>>,
) -> bool {
    let (variable, relative) = nearest_spec(target, m)->0;
    &&& it.kind == FileKind::File
    &&& it.unicode
    &&& it.path == b
    &&& it.names.len() >= 2
    &&& it.names[0] == variable
    &&& join_names(Seq::empty(), it.names.skip(1)) == map_backup_spec(relative, true)->0
}

/// `it` is a directory that backing up makes: one named after a configured
/// absolute path, or one below it.
pub open spec fn lists_backup_dir(it: ItemView, m: Map<Seq<char>, Seq<char>>) -> bool {
    &&& it.kind == FileKind::Directory
    &&& it.unicode
    &&& it.names.len() >= 1
    &&& it.names.len() == 1 ==> m.contains_key(it.names[0]) && is_absolute(m[it.names[0]])
}

/// `it` is the listed file of the backup made for one of the entries.
pub open spec fn lists_some_backup(
    it: ItemView,
    es: Seq<EntryView>,
    steps: Seq<StepView>,
    m: Map<Seq<char>, Seq<char>>,
) -> bool {
    exists|k: int|
        0 <= k < es.len() && (#[trigger] moved_to(steps[k])) is Some && lists_backup_of(
            it,
            moved_to(steps[k])->0,
            es[k].target,
            m,
        )
}

/// The listing of a package's backup directory holds what an installation
/// with the steps `steps` moved there and nothing else: each item is a
/// directory that backing up makes or the file of a backup made, each backup
/// made is listed, and no path is listed twice.
#[verifier::opaque]
pub open spec fn lists_backups(
    items: Seq<ItemView>,
    es: Seq<EntryView>,
    steps: Seq<StepView>,
    m: Map<Seq<char>, Seq<char>>,
) -> bool {
    &&& forall|i: int|
        0 <= i < items.len() ==> lists_backup_dir(#[trigger] items[i], m) || lists_some_backup(
            items[i],
            es,
            steps,
            m,
        )
    &&& forall|k: int|
        0 <= k < es.len() && (#[trigger] moved_to(steps[k])) is Some ==> exists|i: int|
            0 <= i < items.len() && lists_backup_of(#[trigger] items[i], moved_to(steps[k])->0, es[k].target, m)
    &&& forall|a: int, b: int| 0 <= a < b < items.len() ==> (#[trigger] items[a]).path != (#[trigger] items[b]).path
}

/// The backup path of `target` turns back, by restore's own reading, into a
/// path equal to `target` below its configured absolute path.
pub open spec fn turns_back(target: Seq<char>, m: Map<Seq<char>, Seq<char>>) -> bool {
    let (variable, relative) = nearest_spec(target, m)->0;
    let mapped = map_backup_spec(relative, true)->0;
    &&& m.contains_key(variable)
    &&& is_absolute(m[variable])
    &&& map_backup_spec(mapped, false) is Some
    &&& map_backup_spec(map_backup_spec(mapped, false)->0, true) == Some(mapped)
    &&& path_eq(join(m[variable], map_backup_spec(mapped, false)->0), target)
}

/// Each pair gathered is a backup made with a target equal to its entry's.
#[verifier::opaque]
pub open spec fn pending_made(
    pending: Seq<(Seq<char>, Seq<char>)>,
    es: Seq<EntryView>,
    steps: Seq<StepView>,
) -> bool {
    forall|j: int|
        #![trigger pending[j]]
        0 <= j < pending.len() ==> exists|k: int|
            0 <= k < es.len() && #[trigger] moved_to(steps[k]) == Some(pending[j].0) && path_eq(
                pending[j].1,
                es[k].target,
            )
}

/// The walk over one listed item: a directory that backing up makes passes
/// and gathers nothing; the file of a backup made for entry `k` passes and
/// gathers its path with a target equal to the entry's, unless a pair with
/// such a target was gathered before.
proof fn lemma_restore_item_lists_backup(
    it: ItemView,
    m: Map<Seq<char>, Seq<char>>,
    es: Seq<EntryView>,
    steps: Seq<StepView>,
    acc: RestoreScan,
)
    requires
        lists_backup_dir(it, m) || lists_some_backup(it, es, steps, m),
        forall|k: int| 0 <= k < es.len() && (#[trigger] moved_to(steps[k])) is Some ==> turns_back(es[k].target, m),
    ensures
        lists_backup_dir(it, m) ==> (restore_item(it, m, es, acc) matches Ok(next) && next.pending == acc.pending),
        lists_some_backup(it, es, steps, m) ==> {
            let k = choose|k: int|
                0 <= k < es.len() && (#[trigger] moved_to(steps[k])) is Some && lists_backup_of(
                    it,
                    moved_to(steps[k])->0,
                    es[k].target,
                    m,
                );
            let (variable, relative) = nearest_spec(es[k].target, m)->0;
            let target = join(m[variable], map_backup_spec(map_backup_spec(relative, true)->0, false)->0);
            &&& path_eq(target, es[k].target)
            &&& (forall|j: int| 0 <= j < acc.pending.len() ==> !path_eq(#[trigger] acc.pending[j].1, target))
                ==> restore_item(it, m, es, acc) == Ok::<RestoreScan, PkgErr>(
                RestoreScan { pending: acc.pending.push((it.path, target)), dirs: acc.dirs },
            )
        },
{
    if lists_some_backup(it, es, steps, m) {
        let k = choose|k: int|
            0 <= k < es.len() && (#[trigger] moved_to(steps[k])) is Some && lists_backup_of(
                it,
                moved_to(steps[k])->0,
                es[k].target,
                m,
            );
        assert(turns_back(es[k].target, m));
        let (variable, relative) = nearest_spec(es[k].target, m)->0;
        let mapped = map_backup_spec(relative, true)->0;
        let tr = map_backup_spec(mapped, false)->0;
        let target = join(m[variable], tr);
        assert(it.names[0] == variable);
        assert(join_names(Seq::empty(), it.names.skip(1)) == mapped);
        assert(path_eq(es[k].target, target));
        if forall|j: int| 0 <= j < acc.pending.len() ==> !path_eq(#[trigger] acc.pending[j].1, target) {
            assert(!(exists|j: int| 0 <= j < acc.pending.len() && path_eq(#[trigger] acc.pending[j].1, target)));
            assert(path_eq(mapped, mapped));
            assert(exists|j: int| 0 <= j < es.len() && path_eq(#[trigger] es[j].target, target));
        }
    }
}

/// Where restore moves a listed backup file: below the configured path its
/// first name gives, at the original names of the rest.
pub open spec fn restore_target(it: ItemView, m: Map<Seq<char>, Seq<char>>) -> Seq<char> {
    join(m[it.names[0]], map_backup_spec(join_names(Seq::empty(), it.names.skip(1)), false)->0)
}

/// The walk over a listing of what an installation backed up, from item
/// `i` on: it succeeds, what it gathers are backups made, each with a target
/// equal to its entry's, and the file of every backup listed is gathered.
#[verifier::spinoff_prover]
#[verifier::rlimit(30)]
proof fn lemma_scan_lists_backups(
    t: Seq<ItemView>,
    m: Map<Seq<char>, Seq<char>>,
    es: Seq<EntryView>,
    steps: Seq<StepView>,
    i: int,
    acc: RestoreScan,
)
    requires
        0 <= i <= t.len(),
        forall|a: int| 0 <= a < t.len() ==> lists_backup_dir(#[trigger] t[a], m) || lists_some_backup(t[a], es, steps, m),
        forall|a: int, b: int| 0 <= a < b < t.len() ==> (#[trigger] t[a]).path != (#[trigger] t[b]).path,
        forall|x: int, y: int| 0 <= x < y < es.len() ==> !path_eq(#[trigger] es[x].target, #[trigger] es[y].target),
        forall|k: int| 0 <= k < es.len() && (#[trigger] moved_to(steps[k])) is Some ==> turns_back(es[k].target, m),
        pending_made(acc.pending, es, steps),
        forall|j: int|
            #![trigger acc.pending[j]]
            0 <= j < acc.pending.len() ==> exists|a: int| 0 <= a < i && (#[trigger] t[a]).path == acc.pending[j].0,
        forall|a: int|
            0 <= a < i && lists_some_backup(#[trigger] t[a], es, steps, m) ==> exists|j: int|
                0 <= j < acc.pending.len() && (#[trigger] acc.pending[j]) == (t[a].path, restore_target(t[a], m)),
    ensures
        restore_scan(t, m, es, i, acc) matches Ok(scan) && pending_made(scan.pending, es, steps) && forall|a: int|
            0 <= a < t.len() && lists_some_backup(#[trigger] t[a], es, steps, m) ==> exists|j: int|
                0 <= j < scan.pending.len() && (#[trigger] scan.pending[j]) == (t[a].path, restore_target(t[a], m)),
    decreases t.len() - i,
{
    reveal(pending_made);
    if i < t.len() {
        let it = t[i];
        lemma_restore_item_lists_backup(it, m, es, steps, acc);
        if lists_backup_dir(it, m) {
            let next = restore_item(it, m, es, acc)->Ok_0;
            assert(!lists_some_backup(it, es, steps, m));
            assert forall|j: int|
                #![trigger next.pending[j]]
                0 <= j < next.pending.len() implies exists|a: int| 0 <= a < i + 1 && (#[trigger] t[a]).path == next.pending[j].0 by {
                assert(next.pending[j] == acc.pending[j]);
            }
            lemma_scan_lists_backups(t, m, es, steps, i + 1, next);
        } else {
            let k = choose|k: int|
                0 <= k < es.len() && (#[trigger] moved_to(steps[k])) is Some && lists_backup_of(
                    it,
                    moved_to(steps[k])->0,
                    es[k].target,
                    m,
                );
            let (variable, relative) = nearest_spec(es[k].target, m)->0;
            let target = join(m[variable], map_backup_spec(map_backup_spec(relative, true)->0, false)->0);
            assert(restore_target(it, m) == target);
            assert forall|j: int| 0 <= j < acc.pending.len() implies !path_eq(#[trigger] acc.pending[j].1, target) by {
                if path_eq(acc.pending[j].1, target) {
                    let k2 = choose|k2: int|
                        0 <= k2 < es.len() && #[trigger] moved_to(steps[k2]) == Some(acc.pending[j].0) && path_eq(
                            acc.pending[j].1,
                            es[k2].target,
                        );
                    assert(path_eq(es[k2].target, es[k].target));
                    if k2 < k {
                        assert(!path_eq(es[k2].target, es[k].target));
                    } else if k < k2 {
                        assert(!path_eq(es[k].target, es[k2].target));
                    }
                    assert(acc.pending[j].0 == it.path);
                    let a = choose|a: int| 0 <= a < i && (#[trigger] t[a]).path == acc.pending[j].0;
                    assert(t[a].path != t[i].path);
                }
            }
            let next = RestoreScan { pending: acc.pending.push((it.path, target)), dirs: acc.dirs };
            assert(restore_item(it, m, es, acc) == Ok::<RestoreScan, PkgErr>(next));
            assert forall|j: int|
                #![trigger next.pending[j]]
                0 <= j < next.pending.len() implies exists|k3: int|
                    0 <= k3 < es.len() && #[trigger] moved_to(steps[k3]) == Some(next.pending[j].0) && path_eq(
                        next.pending[j].1,
                        es[k3].target,
                    ) by {
                if j < acc.pending.len() {
                    assert(next.pending[j] == acc.pending[j]);
                } else {
                    assert(next.pending[j] == (it.path, target));
                    assert(moved_to(steps[k]) == Some(it.path));
                }
            }
            assert forall|j: int|
                #![trigger next.pending[j]]
                0 <= j < next.pending.len() implies exists|a: int| 0 <= a < i + 1 && (#[trigger] t[a]).path == next.pending[j].0 by {
                if j < acc.pending.len() {
                    assert(next.pending[j] == acc.pending[j]);
                } else {
                    assert(t[i].path == next.pending[j].0);
                }
            }
            assert forall|a: int|
                0 <= a < i + 1 && lists_some_backup(#[trigger] t[a], es, steps, m) implies exists|j: int|
                    0 <= j < next.pending.len() && (#[trigger] next.pending[j]) == (t[a].path, restore_target(t[a], m)) by {
                if a < i {
                    let j = choose|j: int|
                        0 <= j < acc.pending.len() && (#[trigger] acc.pending[j]) == (t[a].path, restore_target(t[a], m));
                    assert(next.pending[j] == acc.pending[j]);
                } else {
                    assert(next.pending[acc.pending.len() as int] == (t[a].path, restore_target(t[a], m)));
                }
            }
            lemma_scan_lists_backups(t, m, es, steps, i + 1, next);
        }
    }
}

/// A backup made for a target whose names restore as written turns back
/// into the target.
proof fn lemma_backup_turns_back(
    name: Seq<char>,
    target: Seq<char>,
    m: Map<Seq<char>, Seq<char>>,
    backup_dir: Seq<char>,
    st: StepView,
)
    requires
        backup_restores(name, target, m, backup_dir, st),
        moved_to(st) is Some,
        restores_as_written(target, m),
    ensures
        turns_back(target, m),
{
    assert(backup_path_spec(name, target, m, backup_dir) is Ok);
    assert(nearest_spec(target, m) is Some);
    let n = choose|n: Seq<char>| is_nearest(target, m, n);
    assert(is_nearest(target, m, n));
    assert((nearest_spec(target, m)->0).0 == n);
}

/// The walk of a listing that holds what an installation backed up, with
/// the targets of the entries apart and each backed-up target turning back:
/// it succeeds, gathers only backups made with targets equal to their
/// entries', and gathers every backup made.
proof fn lemma_scan_listing(
    items: Seq<ItemView>,
    m: Map<Seq<char>, Seq<char>>,
    es: Seq<EntryView>,
    steps: Seq<StepView>,
    acc0: RestoreScan,
)
    requires
        acc0.pending.len() == 0,
        lists_backups(items, es, steps, m),
        forall|x: int, y: int| 0 <= x < y < es.len() ==> !path_eq(#[trigger] es[x].target, #[trigger] es[y].target),
        forall|k: int| 0 <= k < es.len() && (#[trigger] moved_to(steps[k])) is Some ==> turns_back(es[k].target, m),
    ensures
        restore_scan(sort_items(items), m, es, 0, acc0) matches Ok(scan) && pending_made(scan.pending, es, steps)
            && forall|k: int|
            0 <= k < es.len() && (#[trigger] moved_to(steps[k])) is Some ==> exists|j: int|
                0 <= j < scan.pending.len() && (#[trigger] scan.pending[j]).0 == moved_to(steps[k])->0
                    && path_eq(scan.pending[j].1, es[k].target),
{
    reveal(lists_backups);
    reveal(pending_made);
    let t = sort_items(items);
    lemma_sort_items_keeps(items);
    lemma_sort_items_distinct(items);
    assert forall|a: int| 0 <= a < t.len() implies lists_backup_dir(#[trigger] t[a], m) || lists_some_backup(
        t[a],
        es,
        steps,
        m,
    ) by {
        assert(items.contains(t[a]));
        let i = choose|i: int| 0 <= i < items.len() && items[i] == t[a];
        assert(lists_backup_dir(items[i], m) || lists_some_backup(items[i], es, steps, m));
    }
    lemma_scan_lists_backups(t, m, es, steps, 0, acc0);
    let scan = restore_scan(t, m, es, 0, acc0)->Ok_0;
    assert forall|k: int| 0 <= k < es.len() && (#[trigger] moved_to(steps[k])) is Some implies exists|j: int|
        0 <= j < scan.pending.len() && (#[trigger] scan.pending[j]).0 == moved_to(steps[k])->0
            && path_eq(scan.pending[j].1, es[k].target) by {
        let i = choose|i: int|
            0 <= i < items.len() && lists_backup_of(#[trigger] items[i], moved_to(steps[k])->0, es[k].target, m);
        assert(lists_some_backup(items[i], es, steps, m));
        assert(t.contains(items[i]));
        let a = choose|a: int| 0 <= a < t.len() && t[a] == items[i];
        assert(lists_some_backup(t[a], es, steps, m));
        let j = choose|j: int|
            0 <= j < scan.pending.len() && (#[trigger] scan.pending[j]) == (t[a].path, restore_target(t[a], m));
        assert(turns_back(es[k].target, m));
        assert(path_eq(restore_target(t[a], m), es[k].target));
    }
}

/// Restoring after an installation with backups into `backup_dir` that
/// installed every entry or found it up to date, once the targets read as it
/// left them and the package's backup directory lists what it moved there:
/// the restore succeeds, removes every entry, and moves back exactly the
/// backups made, each to a path equal to its entry's target. The entries
/// have targets that differ, as those of a loaded package do; a target whose
/// names below its configured path include one such as `dot-x` is left out
/// (see `restores_as_written`).
pub proof fn lemma_restore_returns_backups(
    name: Seq<char>,
    es: Seq<EntryView>,
    os: Seq<EntryObservation>,
    after: Seq<EntryObservation>,
    values: Map<Seq<char>, Seq<char>>,
    mode: ApplyMode,
    paths: Map<Seq<char>, Seq<char>>,
    backup_dir: Seq<char>,
    listing: &BackupListing,
)
    requires
        os.len() == es.len(),
        after.len() == es.len(),
        apply_steps(name, es, os, values, mode, paths, Some(backup_dir), 0).1 is None,
        forall|k: int|
            0 <= k < es.len() ==> settled(
                es[k],
                &os[k],
                #[trigger] apply_steps(name, es, os, values, mode, paths, Some(backup_dir), 0).0[k],
                &after[k],
            ),
        forall|k: int|
            0 <= k < es.len() ==> (#[trigger] apply_steps(name, es, os, values, mode, paths, Some(backup_dir), 0).0[k]) is Install
                || apply_steps(name, es, os, values, mode, paths, Some(backup_dir), 0).0[k] == StepView::Skip(
                up_to_date(),
            ),
        forall|x: int, y: int| 0 <= x < y < es.len() ==> !path_eq(#[trigger] es[x].target, #[trigger] es[y].target),
        forall|k: int|
            0 <= k < es.len() && (#[trigger] moved_to(
                apply_steps(name, es, os, values, mode, paths, Some(backup_dir), 0).0[k],
            )) is Some ==> restores_as_written(es[k].target, paths),
        exists|k: int|
            0 <= k < es.len() && (#[trigger] moved_to(
                apply_steps(name, es, os, values, mode, paths, Some(backup_dir), 0).0[k],
            )) is Some,
        listing.state == BackupRootState::Directory,
        lists_backups(
            items_view(listing.items@),
            es,
            apply_steps(name, es, os, values, mode, paths, Some(backup_dir), 0).0,
            paths,
        ),
    ensures
        ({
            let steps = apply_steps(name, es, os, values, mode, paths, Some(backup_dir), 0).0;
            &&& restore_spec(name, backup_dir, listing, paths, es, after, values) matches Ok(
                (removal, pending, _),
            )
            &&& removal == (es, Seq::<EntryView>::empty())
            &&& forall|k: int|
                0 <= k < es.len() && (#[trigger] moved_to(steps[k])) is Some ==> exists|j: int|
                    0 <= j < pending.len() && (#[trigger] pending[j]).0 == moved_to(steps[k])->0
                        && path_eq(pending[j].1, es[k].target)
            &&& pending_made(pending, es, steps)
        }),
{
    let steps = apply_steps(name, es, os, values, mode, paths, Some(backup_dir), 0).0;
    lemma_remove_after_apply(name, es, os, after, values, mode, paths, Some(backup_dir));
    lemma_moved_targets_turn_back(name, es, os, after, values, mode, paths, backup_dir, listing);
    lemma_restore_of_listing(name, backup_dir, listing, paths, es, after, values, steps);
}

/// Restore over a listing of what the steps `steps` backed up, with every
/// entry still its target: it succeeds, removes every entry and gathers
/// exactly the backups made, each with a target equal to its entry's.
proof fn lemma_restore_of_listing(
    name: Seq<char>,
    backup_dir: Seq<char>,
    listing: &BackupListing,
    paths: Map<Seq<char>, Seq<char>>,
    es: Seq<EntryView>,
    after: Seq<EntryObservation>,
    values: Map<Seq<char>, Seq<char>>,
    steps: Seq<StepView>,
)
    requires
        listing.state == BackupRootState::Directory,
        lists_backups(items_view(listing.items@), es, steps, paths),
        forall|x: int, y: int| 0 <= x < y < es.len() ==> !path_eq(#[trigger] es[x].target, #[trigger] es[y].target),
        forall|k: int| 0 <= k < es.len() && (#[trigger] moved_to(steps[k])) is Some ==> turns_back(es[k].target, paths),
        exists|k: int| 0 <= k < es.len() && (#[trigger] moved_to(steps[k])) is Some,
        split_managed(es, after, values, 0) == Ok::<(Seq<EntryView>, Seq<EntryView>), PkgErr>(
            (es, Seq::empty()),
        ),
    ensures
        restore_spec(name, backup_dir, listing, paths, es, after, values) matches Ok((removal, pending, _))
            && removal == (es, Seq::<EntryView>::empty()) && (forall|k: int|
            0 <= k < es.len() && (#[trigger] moved_to(steps[k])) is Some ==> exists|j: int|
                0 <= j < pending.len() && (#[trigger] pending[j]).0 == moved_to(steps[k])->0
                    && path_eq(pending[j].1, es[k].target)) && pending_made(pending, es, steps),
{
    let package_backup = join(backup_dir, name);
    let acc0 = RestoreScan { pending: Seq::empty(), dirs: seq![package_backup] };
    lemma_scan_listing(items_view(listing.items@), paths, es, steps, acc0);
    let scan = restore_scan(sort_items(items_view(listing.items@)), paths, es, 0, acc0)->Ok_0;
    let k0 = choose|k: int| 0 <= k < es.len() && (#[trigger] moved_to(steps[k])) is Some;
    assert(scan.pending.len() > 0);
    lemma_restore_spec_of_scan(name, backup_dir, listing, paths, es, after, values, scan);
    let r = restore_spec(name, backup_dir, listing, paths, es, after, values);
    assert(r is Ok);
    assert(r->Ok_0.1 == scan.pending);
    assert(r->Ok_0.0 == (es, Seq::<EntryView>::empty()));
}

/// Each target that an installation with backups moved aside, whose names
/// restore as written, turns back.
proof fn lemma_moved_targets_turn_back(
    name: Seq<char>,
    es: Seq<EntryView>,
    os: Seq<EntryObservation>,
    after: Seq<EntryObservation>,
    values: Map<Seq<char>, Seq<char>>,
    mode: ApplyMode,
    paths: Map<Seq<char>, Seq<char>>,
    backup_dir: Seq<char>,
    listing: &BackupListing,
)
    requires
        os.len() == es.len(),
        after.len() == es.len(),
        apply_steps(name, es, os, values, mode, paths, Some(backup_dir), 0).1 is None,
        forall|k: int|
            0 <= k < es.len() ==> settled(
                es[k],
                &os[k],
                #[trigger] apply_steps(name, es, os, values, mode, paths, Some(backup_dir), 0).0[k],
                &after[k],
            ),
        forall|k: int|
            0 <= k < es.len() ==> (#[trigger] apply_steps(name, es, os, values, mode, paths, Some(backup_dir), 0).0[k]) is Install
                || apply_steps(name, es, os, values, mode, paths, Some(backup_dir), 0).0[k] == StepView::Skip(
                up_to_date(),
            ),
        forall|k: int|
            0 <= k < es.len() && (#[trigger] moved_to(
                apply_steps(name, es, os, values, mode, paths, Some(backup_dir), 0).0[k],
            )) is Some ==> restores_as_written(es[k].target, paths),
    ensures
        forall|k: int|
            0 <= k < es.len() && (#[trigger] moved_to(
                apply_steps(name, es, os, values, mode, paths, Some(backup_dir), 0).0[k],
            )) is Some ==> turns_back(es[k].target, paths),
{
    let steps = apply_steps(name, es, os, values, mode, paths, Some(backup_dir), 0).0;
    lemma_restore_after_backup(name, es, os, after, values, mode, paths, backup_dir, listing);
    assert forall|k: int| 0 <= k < es.len() && (#[trigger] moved_to(steps[k])) is Some implies turns_back(
        es[k].target,
        paths,
    ) by {
        assert(backup_restores(name, es[k].target, paths, backup_dir, steps[k]));
        lemma_backup_turns_back(name, es[k].target, paths, backup_dir, steps[k]);
    }
}

/// What restore decides once the walk of its backup directory has gathered
/// `scan` and every entry is still its target.
proof fn lemma_restore_spec_of_scan(
    name: Seq<char>,
    backup_dir: Seq<char>,
    listing: &BackupListing,
    paths: Map<Seq<char>, Seq<char>>,
    es: Seq<EntryView>,
    after: Seq<EntryObservation>,
    values: Map<Seq<char>, Seq<char>>,
    scan: RestoreScan,
)
    requires
        listing.state == BackupRootState::Directory,
        restore_scan(
            sort_items(items_view(listing.items@)),
            paths,
            es,
            0,
            RestoreScan { pending: Seq::empty(), dirs: seq![join(backup_dir, name)] },
        ) == Ok::<RestoreScan, PkgErr>(scan),
        scan.pending.len() > 0,
        split_managed(es, after, values, 0) == Ok::<(Seq<EntryView>, Seq<EntryView>), PkgErr>(
            (es, Seq::empty()),
        ),
    ensures
        restore_spec(name, backup_dir, listing, paths, es, after, values) == Ok::<
            ((Seq<EntryView>, Seq<EntryView>), Seq<(Seq<char>, Seq<char>)>, Seq<Seq<char>>),
            PkgErr,
        >(((es, Seq::empty()), scan.pending, dedup_paths(sort_deepest_first(scan.dirs)))),
{
}

/// When every step skips, the skipped entries are all the entries, in
/// order, each with its step's reason.
proof fn lemma_skipped_all(es: Seq<EntryView>, st: Seq<StepView>)
    requires
        st.len() <= es.len(),
        forall|k: int| 0 <= k < st.len() ==> (#[trigger] st[k]) is Skip,
    ensures
        skipped_of(es, st).len() == st.len(),
        forall|k: int| 0 <= k < st.len() ==> #[trigger] skipped_of(es, st)[k] == (es[k], st[k]->Skip_0),
    decreases st.len(),
{
    if st.len() > 0 {
        let d = st.drop_last();
        assert forall|k: int| 0 <= k < d.len() implies (#[trigger] d[k]) is Skip by {
            assert(d[k] == st[k]);
        }
        lemma_skipped_all(es, d);
        assert(st[st.len() - 1] is Skip);
        assert forall|k: int| 0 <= k < st.len() implies #[trigger] skipped_of(es, st)[k] == (es[k], st[k]->Skip_0) by {
            if k < d.len() {
                assert(d[k] == st[k]);
                assert(skipped_of(es, st)[k] == skipped_of(es, d)[k]);
            }
        }
    }
}

/// Installing a package a second time, once its targets read as the actions
/// of the first installation left them (`settled`, entry by entry, for the
/// steps the first plan took), changes nothing: the second plan succeeds,
/// installs and backs up nothing, and reports every entry as skipped, in
/// order, those the first installed as up to date and the others for the
/// reason the first gave.
pub proof fn lemma_second_install_changes_nothing(
    name: Seq<char>,
    es: Seq<EntryView>,
    values: Map<Seq<char>, Seq<char>>,
    mode: ApplyMode,
    paths: Map<Seq<char>, Seq<char>>,
    backup_dir: Option<Seq<char>>,
    os: Seq<EntryObservation>,
    first: &ApplyPlan,
    after: Seq<EntryObservation>,
    second: &ApplyPlan,
)
    requires
        os.len() == es.len(),
        after.len() == es.len(),
        plan_matches(first, es, apply_steps(name, es, os, values, mode, paths, backup_dir, 0)),
        first.failure is None,
        forall|k: int| 0 <= k < es.len() ==> settled(es[k], &os[k], #[trigger] steps_view(first.steps@)[k], &after[k]),
        plan_matches(second, es, apply_steps(name, es, after, values, mode, paths, backup_dir, 0)),
    ensures
        second.failure is None,
        second.report.applied@.len() == 0,
        second.report.backups@.len() == 0,
        second.report.skipped@.len() == es.len(),
        forall|k: int|
            0 <= k < es.len() ==> #[trigger] skipped_view(second.report.skipped@)[k] == (
                es[k],
                again(steps_view(first.steps@)[k])->Skip_0,
            ),
{
    let s1 = apply_steps(name, es, os, values, mode, paths, backup_dir, 0).0;
    assert(apply_steps(name, es, os, values, mode, paths, backup_dir, 0).1 is None);
    assert(steps_view(first.steps@) == s1);
    assert forall|k: int| 0 <= k < es.len() implies settled(
        es[k],
        &os[k],
        #[trigger] apply_steps(name, es, os, values, mode, paths, backup_dir, 0).0[k],
        &after[k],
    ) by {
        assert(settled(es[k], &os[k], steps_view(first.steps@)[k], &after[k]));
    }
    lemma_apply_is_idempotent(name, es, os, after, values, mode, paths, backup_dir);
    let s2 = apply_steps(name, es, after, values, mode, paths, backup_dir, 0).0;
    assert forall|k: int| 0 <= k < s2.len() implies (#[trigger] s2[k]) is Skip by {
        assert(s2[k] == again(s1[k]));
    }
    lemma_skipped_all(es, s2);
    assert(entries_view(second.report.applied@).len() == 0);
    assert(backups_view(second.report.backups@).len() == 0);
    assert(skipped_view(second.report.skipped@).len() == es.len());
    assert forall|k: int| 0 <= k < es.len() implies #[trigger] skipped_view(second.report.skipped@)[k] == (
        es[k],
        again(steps_view(first.steps@)[k])->Skip_0,
    ) by {
        assert(s2[k] == again(s1[k]));
        assert(skipped_of(es, s2)[k] == (es[k], s2[k]->Skip_0));
    }
}

/// When every entry a plan skipped was skipped as up to date, every skipping
/// step gave that reason.
proof fn lemma_skip_reasons(es: Seq<EntryView>, st: Seq<StepView>)
    ensures
        (forall|j: int| 0 <= j < skipped_of(es, st).len() ==> (#[trigger] skipped_of(es, st)[j]).1 == up_to_date())
            ==> forall|k: int| 0 <= k < st.len() && (#[trigger] st[k]) is Skip ==> st[k] == StepView::Skip(up_to_date()),
    decreases st.len(),
{
    if st.len() > 0 {
        let d = st.drop_last();
        lemma_skip_reasons(es, d);
        if forall|j: int| 0 <= j < skipped_of(es, st).len() ==> (#[trigger] skipped_of(es, st)[j]).1 == up_to_date() {
            assert forall|j: int| 0 <= j < skipped_of(es, d).len() implies (#[trigger] skipped_of(es, d)[j]).1 == up_to_date() by {
                assert(skipped_of(es, st)[j] == skipped_of(es, d)[j]);
            }
            assert forall|k: int| 0 <= k < st.len() && (#[trigger] st[k]) is Skip implies st[k] == StepView::Skip(up_to_date()) by {
                if k < d.len() {
                    assert(d[k] == st[k]);
                } else {
                    let n = skipped_of(es, d).len() as int;
                    assert(skipped_of(es, st)[n].1 == st[k]->Skip_0);
                }
            }
        }
    }
}

/// Removing a package safely after installing it, once its targets read as
/// the installation's actions left them and every entry the installation
/// skipped was already up to date: the removal succeeds and removes every
/// entry, in order, leaving none.
pub proof fn lemma_remove_after_install(
    name: Seq<char>,
    es: Seq<EntryView>,
    values: Map<Seq<char>, Seq<char>>,
    mode: ApplyMode,
    paths: Map<Seq<char>, Seq<char>>,
    backup_dir: Option<Seq<char>>,
    os: Seq<EntryObservation>,
    first: &ApplyPlan,
    after: Seq<EntryObservation>,
    removal: &Result<RemoveReport, PackageError>,
)
    requires
        os.len() == es.len(),
        after.len() == es.len(),
        plan_matches(first, es, apply_steps(name, es, os, values, mode, paths, backup_dir, 0)),
        first.failure is None,
        forall|j: int| 0 <= j < first.report.skipped@.len() ==> (#[trigger] first.report.skipped@[j]).reason@ == up_to_date(),
        forall|k: int| 0 <= k < es.len() ==> settled(es[k], &os[k], #[trigger] steps_view(first.steps@)[k], &after[k]),
        removal_matches(removal, es, after, values, RemoveMode::Safe),
    ensures
        removal matches Ok(r) && entries_view(r.removed@) == es && r.skipped@.len() == 0,
{
    let s1 = apply_steps(name, es, os, values, mode, paths, backup_dir, 0).0;
    assert(apply_steps(name, es, os, values, mode, paths, backup_dir, 0).1 is None);
    assert(steps_view(first.steps@) == s1);
    lemma_skip_reasons(es, s1);
    assert forall|j: int| 0 <= j < skipped_of(es, s1).len() implies (#[trigger] skipped_of(es, s1)[j]).1 == up_to_date() by {
        assert(skipped_view(first.report.skipped@)[j] == skipped_of(es, s1)[j]);
        assert(first.report.skipped@[j].reason@ == up_to_date());
    }
    assert forall|k: int| 0 <= k < es.len() implies settled(
        es[k],
        &os[k],
        #[trigger] apply_steps(name, es, os, values, mode, paths, backup_dir, 0).0[k],
        &after[k],
    ) by {
        assert(settled(es[k], &os[k], steps_view(first.steps@)[k], &after[k]));
    }
    lemma_apply_steps_at(name, es, os, values, mode, paths, backup_dir, 0);
    assert forall|k: int| 0 <= k < es.len() implies (#[trigger] apply_steps(name, es, os, values, mode, paths, backup_dir, 0).0[k]) is Install
        || apply_steps(name, es, os, values, mode, paths, backup_dir, 0).0[k] == StepView::Skip(up_to_date()) by {
        if s1[k] is Skip {
            assert(s1[k] == StepView::Skip(up_to_date()));
        }
    }
    lemma_remove_after_apply(name, es, os, after, values, mode, paths, backup_dir);
}

/// Each backup a plan reports is one a step made for its entry's target.
proof fn lemma_reported_backups_made(es: Seq<EntryView>, st: Seq<StepView>)
    requires
        st.len() <= es.len(),
    ensures
        forall|j: int|
            #![trigger backups_of(es, st)[j]]
            0 <= j < backups_of(es, st).len() ==> exists|k: int|
                0 <= k < st.len() && #[trigger] moved_to(st[k]) == Some(backups_of(es, st)[j].1)
                    && backups_of(es, st)[j].0 == es[k].target,
    decreases st.len(),
{
    if st.len() > 0 {
        let d = st.drop_last();
        lemma_reported_backups_made(es, d);
        let n = st.len() - 1;
        assert forall|j: int|
            #![trigger backups_of(es, st)[j]]
            0 <= j < backups_of(es, st).len() implies exists|k: int|
                0 <= k < st.len() && #[trigger] moved_to(st[k]) == Some(backups_of(es, st)[j].1)
                    && backups_of(es, st)[j].0 == es[k].target by {
            if j < backups_of(es, d).len() {
                assert(backups_of(es, st)[j] == backups_of(es, d)[j]);
                let k = choose|k: int|
                    0 <= k < d.len() && #[trigger] moved_to(d[k]) == Some(backups_of(es, d)[j].1)
                        && backups_of(es, d)[j].0 == es[k].target;
                assert(d[k] == st[k]);
            } else {
                assert(moved_to(st[n]) == Some(backups_of(es, st)[j].1));
            }
        }
    }
}

/// Each backup a step makes is reported, with its entry's target.
proof fn lemma_made_backups_reported(es: Seq<EntryView>, st: Seq<StepView>)
    requires
        st.len() <= es.len(),
    ensures
        forall|k: int|
            0 <= k < st.len() && (#[trigger] moved_to(st[k])) is Some ==> exists|j: int|
                0 <= j < backups_of(es, st).len() && #[trigger] backups_of(es, st)[j] == (
                    es[k].target,
                    moved_to(st[k])->0,
                ),
    decreases st.len(),
{
    if st.len() > 0 {
        let d = st.drop_last();
        lemma_made_backups_reported(es, d);
        let n = st.len() - 1;
        assert forall|k: int|
            0 <= k < st.len() && (#[trigger] moved_to(st[k])) is Some implies exists|j: int|
                0 <= j < backups_of(es, st).len() && #[trigger] backups_of(es, st)[j] == (
                    es[k].target,
                    moved_to(st[k])->0,
                ) by {
            if k < n {
                assert(d[k] == st[k]);
                let j = choose|j: int|
                    0 <= j < backups_of(es, d).len() && #[trigger] backups_of(es, d)[j] == (
                        es[k].target,
                        moved_to(d[k])->0,
                    );
                assert(backups_of(es, st)[j] == backups_of(es, d)[j]);
            } else {
                let j = backups_of(es, d).len() as int;
                assert(backups_of(es, st)[j] == (es[k].target, moved_to(st[k])->0));
            }
        }
    }
}

/// Restoring a package after installing it with backups into `backup_dir`,
/// once its targets read as the installation's actions left them, every
/// entry the installation skipped was already up to date, and the package's
/// backup directory lists what the installation moved there (`lists_backups`):
/// the restore succeeds, removes every entry, and moves back exactly the
/// backups the installation reported, each to a path equal to the target it
/// came from. The entries have targets that differ, as those of a loaded
/// package do; the installation must have made a backup (else there is none
/// to restore); and a target whose names below its configured path include
/// one such as `dot-x` is left out (see `restores_as_written`).
pub proof fn lemma_restore_after_install_with_backup(
    name: Seq<char>,
    es: Seq<EntryView>,
    values: Map<Seq<char>, Seq<char>>,
    mode: ApplyMode,
    paths: Map<Seq<char>, Seq<char>>,
    backup_dir: Seq<char>,
    os: Seq<EntryObservation>,
    first: &ApplyPlan,
    after: Seq<EntryObservation>,
    listing: &BackupListing,
    restoration: &Result<RestorePlan, PackageError>,
)
    requires
        os.len() == es.len(),
        after.len() == es.len(),
        plan_matches(first, es, apply_steps(name, es, os, values, mode, paths, Some(backup_dir), 0)),
        first.failure is None,
        forall|j: int| 0 <= j < first.report.skipped@.len() ==> (#[trigger] first.report.skipped@[j]).reason@ == up_to_date(),
        forall|k: int| 0 <= k < es.len() ==> settled(es[k], &os[k], #[trigger] steps_view(first.steps@)[k], &after[k]),
        forall|x: int, y: int| 0 <= x < y < es.len() ==> !path_eq(#[trigger] es[x].target, #[trigger] es[y].target),
        first.report.backups@.len() > 0,
        forall|j: int|
            0 <= j < first.report.backups@.len() ==> restores_as_written(
                (#[trigger] first.report.backups@[j]).original@,
                paths,
            ),
        listing.state == BackupRootState::Directory,
        lists_backups(items_view(listing.items@), es, steps_view(first.steps@), paths),
        restoration_matches(restoration, name, backup_dir, listing, paths, es, after, values),
    ensures
        restoration matches Ok(p) && entries_view(p.removal.removed@) == es && p.removal.skipped@.len() == 0
            && (forall|j: int|
            0 <= j < first.report.backups@.len() ==> #[trigger] moved_back(
                p.restored@,
                first.report.backups@[j],
            )) && (forall|i: int|
            0 <= i < p.restored@.len() ==> #[trigger] was_backed_up(first.report.backups@, p.restored@[i])),
{
    let s1 = apply_steps(name, es, os, values, mode, paths, Some(backup_dir), 0).0;
    lemma_install_report_steps(name, es, values, mode, paths, backup_dir, os, first, after);
    lemma_restore_returns_backups(name, es, os, after, values, mode, paths, backup_dir, listing);
    let pending = restore_spec(name, backup_dir, listing, paths, es, after, values)->Ok_0.1;
    let p = restoration->Ok_0;
    lemma_reported_are_restored(es, s1, pending, p.restored@, first.report.backups@);
    lemma_restored_are_reported(es, s1, pending, p.restored@, first.report.backups@);
}

/// What the report of an installation with backups, with the conditions of
/// `lemma_restore_after_install_with_backup`, says of its steps.
proof fn lemma_install_report_steps(
    name: Seq<char>,
    es: Seq<EntryView>,
    values: Map<Seq<char>, Seq<char>>,
    mode: ApplyMode,
    paths: Map<Seq<char>, Seq<char>>,
    backup_dir: Seq<char>,
    os: Seq<EntryObservation>,
    first: &ApplyPlan,
    after: Seq<EntryObservation>,
)
    requires
        os.len() == es.len(),
        plan_matches(first, es, apply_steps(name, es, os, values, mode, paths, Some(backup_dir), 0)),
        first.failure is None,
        forall|j: int| 0 <= j < first.report.skipped@.len() ==> (#[trigger] first.report.skipped@[j]).reason@ == up_to_date(),
        forall|k: int| 0 <= k < es.len() ==> settled(es[k], &os[k], #[trigger] steps_view(first.steps@)[k], &after[k]),
        first.report.backups@.len() > 0,
        forall|j: int|
            0 <= j < first.report.backups@.len() ==> restores_as_written(
                (#[trigger] first.report.backups@[j]).original@,
                paths,
            ),
    ensures
        apply_steps(name, es, os, values, mode, paths, Some(backup_dir), 0).1 is None,
        steps_view(first.steps@) == apply_steps(name, es, os, values, mode, paths, Some(backup_dir), 0).0,
        apply_steps(name, es, os, values, mode, paths, Some(backup_dir), 0).0.len() == es.len(),
        forall|k: int|
            0 <= k < es.len() ==> settled(
                es[k],
                &os[k],
                #[trigger] apply_steps(name, es, os, values, mode, paths, Some(backup_dir), 0).0[k],
                &after[k],
            ),
        forall|k: int|
            0 <= k < es.len() ==> (#[trigger] apply_steps(name, es, os, values, mode, paths, Some(backup_dir), 0).0[k]) is Install
                || apply_steps(name, es, os, values, mode, paths, Some(backup_dir), 0).0[k] == StepView::Skip(
                up_to_date(),
            ),
        forall|k: int|
            0 <= k < es.len() && (#[trigger] moved_to(
                apply_steps(name, es, os, values, mode, paths, Some(backup_dir), 0).0[k],
            )) is Some ==> restores_as_written(es[k].target, paths),
        exists|k: int|
            0 <= k < es.len() && (#[trigger] moved_to(
                apply_steps(name, es, os, values, mode, paths, Some(backup_dir), 0).0[k],
            )) is Some,
{
    let s1 = apply_steps(name, es, os, values, mode, paths, Some(backup_dir), 0).0;
    assert(apply_steps(name, es, os, values, mode, paths, Some(backup_dir), 0).1 is None);
    assert(steps_view(first.steps@) == s1);
    lemma_apply_steps_at(name, es, os, values, mode, paths, Some(backup_dir), 0);
    let b = backups_of(es, s1);
    assert(backups_view(first.report.backups@) == b);
    assert forall|j: int| 0 <= j < skipped_of(es, s1).len() implies (#[trigger] skipped_of(es, s1)[j]).1 == up_to_date() by {
        assert(skipped_view(first.report.skipped@)[j] == skipped_of(es, s1)[j]);
        assert(first.report.skipped@[j].reason@ == up_to_date());
    }
    assert forall|k: int| 0 <= k < es.len() implies (#[trigger] s1[k]) is Install || s1[k] == StepView::Skip(up_to_date()) by {
        lemma_skip_reasons(es, s1);
    }
    assert forall|k: int| 0 <= k < es.len() && (#[trigger] moved_to(s1[k])) is Some implies restores_as_written(
        es[k].target,
        paths,
    ) by {
        lemma_made_backups_reported(es, s1);
        let j = choose|j: int| 0 <= j < b.len() && #[trigger] b[j] == (es[k].target, moved_to(s1[k])->0);
        assert(backups_view(first.report.backups@)[j] == b[j]);
        assert(restores_as_written(first.report.backups@[j].original@, paths));
    }
    assert(exists|k: int| 0 <= k < es.len() && (#[trigger] moved_to(s1[k])) is Some) by {
        lemma_reported_backups_made(es, s1);
        assert(b.len() > 0);
        let k0 = choose|k: int| 0 <= k < s1.len() && #[trigger] moved_to(s1[k]) == Some(b[0].1) && b[0].0 == es[k].target;
        assert(moved_to(s1[k0]) is Some);
    }
}

/// The backup `b` is moved back by a restore that moves `restored`: to a
/// path equal to the target it came from.
pub open spec fn moved_back(restored: Seq<RestoredEntry>, b: BackupEntry) -> bool {
    exists|i: int|
        0 <= i < restored.len() && (#[trigger] restored[i]).backup@ == b.backup@ && path_eq(
            restored[i].target@,
            b.original@,
        )
}

/// The restored backup `r` is one of the backups `backups`, moved to a path
/// equal to the target it came from.
pub open spec fn was_backed_up(backups: Seq<BackupEntry>, r: RestoredEntry) -> bool {
    exists|j: int|
        0 <= j < backups.len() && r.backup@ == (#[trigger] backups[j]).backup@ && path_eq(
            r.target@,
            backups[j].original@,
        )
}

/// Each backup an installation reports is among those a restore moves, to
/// a path equal to the target it came from.
proof fn lemma_reported_are_restored(
    es: Seq<EntryView>,
    s1: Seq<StepView>,
    pending: Seq<(Seq<char>, Seq<char>)>,
    restored: Seq<RestoredEntry>,
    backups: Seq<BackupEntry>,
)
    requires
        s1.len() == es.len(),
        backups_view(backups) == backups_of(es, s1),
        restored_view(restored) == pending,
        forall|k: int|
            0 <= k < es.len() && (#[trigger] moved_to(s1[k])) is Some ==> exists|j: int|
                0 <= j < pending.len() && (#[trigger] pending[j]).0 == moved_to(s1[k])->0
                    && path_eq(pending[j].1, es[k].target),
    ensures
        forall|j: int| 0 <= j < backups.len() ==> #[trigger] moved_back(restored, backups[j]),
{
    let b = backups_of(es, s1);
    lemma_reported_backups_made(es, s1);
    assert forall|j: int| 0 <= j < backups.len() implies #[trigger] moved_back(restored, backups[j]) by {
        assert(backups_view(backups)[j] == b[j]);
        let k = choose|k: int| 0 <= k < s1.len() && #[trigger] moved_to(s1[k]) == Some(b[j].1) && b[j].0 == es[k].target;
        let i = choose|i: int|
            0 <= i < pending.len() && (#[trigger] pending[i]).0 == moved_to(s1[k])->0 && path_eq(pending[i].1, es[k].target);
        assert(restored_view(restored)[i] == pending[i]);
        assert(restored[i].backup@ == backups[j].backup@);
        assert(path_eq(restored[i].target@, backups[j].original@));
    }
}

/// Each backup a restore moves is one the installation reports, moved to a
/// path equal to the target it came from.
proof fn lemma_restored_are_reported(
    es: Seq<EntryView>,
    s1: Seq<StepView>,
    pending: Seq<(Seq<char>, Seq<char>)>,
    restored: Seq<RestoredEntry>,
    backups: Seq<BackupEntry>,
)
    requires
        s1.len() == es.len(),
        backups_view(backups) == backups_of(es, s1),
        restored_view(restored) == pending,
        pending_made(pending, es, s1),
    ensures
        forall|i: int| 0 <= i < restored.len() ==> #[trigger] was_backed_up(backups, restored[i]),
{
    let b = backups_of(es, s1);
    reveal(pending_made);
    lemma_made_backups_reported(es, s1);
    assert forall|i: int| 0 <= i < restored.len() implies #[trigger] was_backed_up(backups, restored[i]) by {
        assert(restored_view(restored)[i] == pending[i]);
        let k = choose|k: int|
            0 <= k < es.len() && #[trigger] moved_to(s1[k]) == Some(pending[i].0) && path_eq(pending[i].1, es[k].target);
        let j = choose|j: int| 0 <= j < b.len() && #[trigger] b[j] == (es[k].target, moved_to(s1[k])->0);
        assert(backups_view(backups)[j] == b[j]);
        assert(restored[i].backup@ == backups[j].backup@);
        assert(path_eq(restored[i].target@, backups[j].original@));
    }
}

/// How installing treats an entry's target, in each mode: a missing target
/// is installed and a directory refused, whatever the mode; a target that
/// already is the entry is left as up to date. Any other target stands in the
/// way: normal mode leaves it ("target already exists"), semi-force replaces
/// it exactly when it is a symbolic link, and force always replaces it. A
/// replaced target is removed, or moved to the backup path when one is
/// given, which must not be taken.
pub proof fn lemma_conflicting_targets(
    e: EntryView,
    o: &EntryObservation,
    values: Map<Seq<char>, Seq<char>>,
    mode: ApplyMode,
    backup: Option<Seq<char>>,
)
    requires
        rendered_spec(e, o, values) is Ok,
    ensures
        ({
            let r = rendered_spec(e, o, values)->Ok_0;
            let res = apply_entry_spec(e, o, values, mode, backup);
            let in_the_way = !(o.target is Missing) && !(o.target is Directory) && !is_current_spec(e, r, o.target);
            let replaced = mode == ApplyMode::Force || (mode == ApplyMode::SemiForce && o.target is Symlink);
            &&& o.target is Missing ==> res == Ok::<StepView, PkgErr>(StepView::Install(ReplView::Nothing, r))
            &&& o.target is Directory ==> res == Err::<StepView, PkgErr>(PkgErr::TargetIsDirectory { path: e.target })
            &&& !(o.target is Missing) && !(o.target is Directory) && is_current_spec(e, r, o.target) ==> res == Ok::<
                StepView,
                PkgErr,
            >(StepView::Skip(up_to_date()))
            &&& in_the_way && !replaced ==> res == Ok::<StepView, PkgErr>(StepView::Skip(already_exists()))
            &&& in_the_way && replaced && backup is None ==> res == Ok::<StepView, PkgErr>(
                StepView::Install(ReplView::Remove, r),
            )
            &&& in_the_way && replaced && backup is Some && !o.backup_exists ==> res == Ok::<StepView, PkgErr>(
                StepView::Install(ReplView::Backup(backup->0), r),
            )
            &&& in_the_way && replaced && backup is Some && o.backup_exists ==> res == Err::<StepView, PkgErr>(
                PkgErr::BackupAlreadyExists { path: backup->0 },
            )
        }),
{
}

/// When a target already is its entry: for a link entry, a symbolic link
/// whose destination is a path equal to the package file; for a template
/// entry, a regular file holding exactly the rendered text. Such a target is
/// left as up to date in every mode.
pub proof fn lemma_current_targets(
    e: EntryView,
    o: &EntryObservation,
    values: Map<Seq<char>, Seq<char>>,
    mode: ApplyMode,
    backup: Option<Seq<char>>,
)
    requires
        rendered_spec(e, o, values) is Ok,
    ensures
        ({
            let r = rendered_spec(e, o, values)->Ok_0;
            let current = match e.kind {
                EntryKind::Symlink => o.target matches TargetState::Symlink(Some(l)) && components(l@)
                    == components(e.source),
                EntryKind::Template => r is Some && (o.target matches TargetState::File(Some(t)) && t@ == r->0),
            };
            &&& is_current_spec(e, r, o.target) == current
            &&& current ==> apply_entry_spec(e, o, values, mode, backup) == Ok::<StepView, PkgErr>(
                StepView::Skip(up_to_date()),
            )
        }),
{
}

} // verus!
