//! The virtual file resolver.
//!
//! Abstract file identifiers name either a file of the local mirror or a
//! file of a shared package.  Each resolves to a physical path under the
//! cache root; a slot per identifier memoizes the decoded text and the raw
//! bytes independently, each populated at most once.  A missing package in
//! the recognized namespace is fetched from the registry at most once per
//! resolution; an identifier whose path escapes the roots is rejected as
//! access-denied, distinct from not-found.

use vstd::prelude::*;
use vstd::string::StringSliceAdditionalSpecFns;

use crate::bytes::{
    bytes_eq, contains_seq, dec_of, find_pattern, push_all, push_str_bytes, push_u32_dec,
    str_to_vec,
};

verus! {

/// Identity of a shared package: namespace, name and version.
pub struct PackageId {
    pub namespace: Vec<u8>,
    pub name: Vec<u8>,
    pub major: u32,
    pub minor: u32,
    pub patch: u32,
}

/// Mathematical image of a `PackageId`.
pub struct PackageIdV {
    pub namespace: Seq<u8>,
    pub name: Seq<u8>,
    pub major: u32,
    pub minor: u32,
    pub patch: u32,
}

impl View for PackageId {
    type V = PackageIdV;

    open spec fn view(&self) -> PackageIdV {
        PackageIdV {
            namespace: self.namespace@,
            name: self.name@,
            major: self.major,
            minor: self.minor,
            patch: self.patch,
        }
    }
}

/// An abstract file identifier: a relative path in the local mirror, or a
/// relative path inside a package.
pub enum FileKey {
    Local { vpath: Vec<u8> },
    Package { pkg: PackageId, vpath: Vec<u8> },
}

/// Mathematical image of a `FileKey`.
pub enum FileKeyV {
    Local { vpath: Seq<u8> },
    Package { pkg: PackageIdV, vpath: Seq<u8> },
}

impl View for FileKey {
    type V = FileKeyV;

    open spec fn view(&self) -> FileKeyV {
        match self {
            FileKey::Local { vpath } => FileKeyV::Local { vpath: vpath@ },
            FileKey::Package { pkg, vpath } => FileKeyV::Package { pkg: pkg@, vpath: vpath@ },
        }
    }
}

/// Why a file failed to resolve.
pub enum FileFault {
    /// The file is absent, after the one permitted download attempt for a
    /// package file.
    NotFound,
    /// The identifier is not recognized as a safe local or package path.
    AccessDenied,
    /// Reading the file failed.
    Io { details: String },
}

/// One memoized file: its identifier and the two independently cached
/// outcomes, each written at most once.
pub struct FileSlot {
    pub key: FileKey,
    pub text: Option<Result<Vec<u8>, FileFault>>,
    pub raw: Option<Result<Vec<u8>, FileFault>>,
}

/// The resolver: the cache root and the discovered slots.
pub struct Resolver {
    pub root: Vec<u8>,
    pub slots: Vec<FileSlot>,
}

/// Bytes of `..`.
pub open spec fn dotdot() -> Seq<u8> {
    seq![46u8, 46u8]
}

/// Bytes of `preview`, the one recognized registry namespace.
pub open spec fn preview_namespace() -> Seq<u8> {
    seq![112u8, 114u8, 101u8, 118u8, 105u8, 101u8, 119u8]
}

/// A safe relative path: non-empty, not absolute, and with no `..` anywhere.
pub open spec fn vpath_ok(p: Seq<u8>) -> bool {
    p.len() > 0 && p[0] != 47 && !contains_seq(p, dotdot())
}

/// A package identity with non-empty, slash-free namespace and name.
pub open spec fn pkg_ok(pkg: PackageIdV) -> bool {
    &&& pkg.namespace.len() > 0
    &&& !contains_seq(pkg.namespace, seq![47u8])
    &&& pkg.name.len() > 0
    &&& !contains_seq(pkg.name, seq![47u8])
}

/// An identifier the resolver recognizes; anything else is access-denied.
pub open spec fn recognized(key: FileKeyV) -> bool {
    match key {
        FileKeyV::Local { vpath } => vpath_ok(vpath),
        FileKeyV::Package { pkg, vpath } => vpath_ok(vpath) && pkg_ok(pkg),
    }
}

/// The version rendering `major.minor.patch`.
pub open spec fn version_of(pkg: PackageIdV) -> Seq<u8> {
    dec_of(pkg.major as nat) + seq![46u8] + dec_of(pkg.minor as nat) + seq![46u8] + dec_of(
        pkg.patch as nat,
    )
}

/// The directory a package unpacks into.
pub open spec fn package_dir_of(root: Seq<u8>, pkg: PackageIdV) -> Seq<u8> {
    root + "/packages/".spec_bytes() + pkg.namespace + seq![47u8] + pkg.name + seq![47u8]
        + version_of(pkg)
}

/// The physical path an identifier resolves to.
pub open spec fn physical_path_of(root: Seq<u8>, key: FileKeyV) -> Seq<u8> {
    match key {
        FileKeyV::Local { vpath } => root + "/workdir/".spec_bytes() + vpath,
        FileKeyV::Package { pkg, vpath } => package_dir_of(root, pkg) + seq![47u8] + vpath,
    }
}

/// The registry URL of a package archive in the recognized namespace.
pub open spec fn archive_url_of(pkg: PackageIdV) -> Seq<u8> {
    "https://packages.typst.org/preview/".spec_bytes() + pkg.name + seq![45u8] + version_of(pkg)
        + ".tar.gz".spec_bytes()
}

/// What a lookup asks the caller to do next.
pub enum LookupStep {
    /// The identifier is already memoized in this slot.
    Have { slot: usize },
    /// Check whether this physical path exists on disk, then report back.
    Probe { path: Vec<u8> },
    /// The identifier is not recognized.
    Denied,
}

/// What follows a disk probe.
pub enum ProbeStep {
    /// The file exists; it is now memoized in this slot.
    Have { slot: usize },
    /// Fetch this archive and unpack it into this directory, then report
    /// back; asked at most once per resolution.
    Fetch { url: Vec<u8>, dir: Vec<u8> },
    /// The file cannot be resolved.
    Missing,
}

/// What follows the single download attempt.  No further fetch can be
/// asked: a registry miss is final.
pub enum RetryStep {
    Have { slot: usize },
    Missing,
}

impl Resolver {
    /// Some slot memoizes the identifier.
    pub open spec fn has_slot(self, key: FileKeyV) -> bool {
        exists|i: int| 0 <= i < self.slots@.len() && (#[trigger] self.slots@[i]).key@ == key
    }

    /// Slots memoize pairwise distinct identifiers.
    pub open spec fn wf(self) -> bool {
        forall|i: int, j: int|
            0 <= i < j < self.slots@.len() ==> self.slots@[i].key@ != self.slots@[j].key@
    }

    /// An empty resolver over the given cache root.
    pub fn new(root: Vec<u8>) -> (r: Resolver)
        ensures
            r.wf(),
            r.root@ == root@,
            r.slots@.len() == 0,
    {
        Resolver { root, slots: Vec::new() }
    }

    /// Forget every memoized file.
    pub fn reset(&mut self)
        ensures
            final(self).wf(),
            final(self).root@ == old(self).root@,
            final(self).slots@.len() == 0,
    {
        self.slots = Vec::new();
    }

    /// Physical path of an identifier under the cache root.
    pub fn physical_path(&self, key: &FileKey) -> (r: Vec<u8>)
        ensures
            r@ == physical_path_of(self.root@, key@),
    {
        let mut out: Vec<u8> = Vec::new();
        push_all(&mut out, &self.root);
        match key {
            FileKey::Local { vpath } => {
                push_str_bytes(&mut out, "/workdir/");
                push_all(&mut out, vpath);
            },
            FileKey::Package { pkg, vpath } => {
                push_str_bytes(&mut out, "/packages/");
                push_all(&mut out, &pkg.namespace);
                out.push(47);
                push_all(&mut out, &pkg.name);
                out.push(47);
                push_u32_dec(&mut out, pkg.major);
                out.push(46);
                push_u32_dec(&mut out, pkg.minor);
                out.push(46);
                push_u32_dec(&mut out, pkg.patch);
                out.push(47);
                push_all(&mut out, vpath);
            },
        }
        proof {
            assert(out@ =~= physical_path_of(self.root@, key@));
        }
        out
    }

    fn key_eq(a: &FileKey, b: &FileKey) -> (r: bool)
        ensures
            r <==> a@ == b@,
    {
        match (a, b) {
            (FileKey::Local { vpath: va }, FileKey::Local { vpath: vb }) => bytes_eq(va, vb),
            (
                FileKey::Package { pkg: pa, vpath: va },
                FileKey::Package { pkg: pb, vpath: vb },
            ) => {
                let same = bytes_eq(&pa.namespace, &pb.namespace) && bytes_eq(&pa.name, &pb.name)
                    && pa.major == pb.major && pa.minor == pb.minor && pa.patch == pb.patch
                    && bytes_eq(va, vb);
                same
            },
            _ => false,
        }
    }

    fn find_slot(&self, key: &FileKey) -> (r: Option<usize>)
        ensures
            (match r {
                Some(i) => (i as int) < self.slots@.len() && self.slots@[i as int].key@ == key@,
                None => !self.has_slot(key@),
            }),
    {
        let n = self.slots.len();
        let mut i: usize = 0;
        while i < n
            invariant
                n == self.slots@.len(),
                i <= n,
                forall|m: int| 0 <= m < i ==> (#[trigger] self.slots@[m]).key@ != key@,
            decreases n - i,
        {
            if Self::key_eq(&self.slots[i].key, key) {
                return Some(i);
            }
            i += 1;
        }
        None
    }

    fn check_vpath(vpath: &Vec<u8>) -> (r: bool)
        ensures
            r <==> vpath_ok(vpath@),
    {
        if vpath.len() == 0 {
            return false;
        }
        if vpath[0] == 47 {
            return false;
        }
        let mut dots: Vec<u8> = Vec::new();
        dots.push(46);
        dots.push(46);
        proof {
            assert(dots@ =~= dotdot());
        }
        match find_pattern(vpath, &dots, 0) {
            Some(_) => false,
            None => true,
        }
    }

    fn check_name(part: &Vec<u8>) -> (r: bool)
        ensures
            r <==> part@.len() > 0 && !contains_seq(part@, seq![47u8]),
    {
        if part.len() == 0 {
            return false;
        }
        let mut slash: Vec<u8> = Vec::new();
        slash.push(47);
        proof {
            assert(slash@ =~= seq![47u8]);
        }
        match find_pattern(part, &slash, 0) {
            Some(_) => false,
            None => true,
        }
    }

    /// Whether the resolver recognizes the identifier at all.
    pub fn check_recognized(key: &FileKey) -> (r: bool)
        ensures
            r <==> recognized(key@),
    {
        match key {
            FileKey::Local { vpath } => Self::check_vpath(vpath),
            FileKey::Package { pkg, vpath } => {
                Self::check_vpath(vpath) && Self::check_name(&pkg.namespace) && Self::check_name(
                    &pkg.name,
                )
            },
        }
    }

    /// First step of resolving an identifier: reuse the memoized slot,
    /// reject an unrecognized identifier, or ask for a disk probe of the
    /// physical path.
    pub fn lookup(&self, key: &FileKey) -> (r: LookupStep)
        requires
            self.wf(),
        ensures
            (match r {
                LookupStep::Have { slot } => (slot as int) < self.slots@.len() && self.slots@[slot
                    as int].key@ == key@,
                LookupStep::Probe { path } => recognized(key@) && !self.has_slot(key@) && path@
                    == physical_path_of(self.root@, key@),
                LookupStep::Denied => !recognized(key@),
            }),
            recognized(key@) && self.has_slot(key@) ==> r is Have,
    {
        if !Self::check_recognized(key) {
            return LookupStep::Denied;
        }
        match self.find_slot(key) {
            Some(i) => LookupStep::Have { slot: i },
            None => LookupStep::Probe { path: self.physical_path(key) },
        }
    }

    fn add_slot(&mut self, key: &FileKey) -> (slot: usize)
        requires
            old(self).wf(),
            !old(self).has_slot(key@),
            old(self).slots@.len() < usize::MAX,
        ensures
            final(self).wf(),
            final(self).root@ == old(self).root@,
            final(self).slots@.len() == old(self).slots@.len() + 1,
            forall|m: int|
                0 <= m < old(self).slots@.len() ==> final(self).slots@[m] == old(self).slots@[m],
            (slot as int) == old(self).slots@.len(),
            final(self).slots@[slot as int].key@ == key@,
            final(self).slots@[slot as int].text is None,
            final(self).slots@[slot as int].raw is None,
    {
        let k = match key {
            FileKey::Local { vpath } => FileKey::Local { vpath: vpath.clone() },
            FileKey::Package { pkg, vpath } => FileKey::Package {
                pkg: PackageId {
                    namespace: pkg.namespace.clone(),
                    name: pkg.name.clone(),
                    major: pkg.major,
                    minor: pkg.minor,
                    patch: pkg.patch,
                },
                vpath: vpath.clone(),
            },
        };
        let slot = self.slots.len();
        self.slots.push(FileSlot { key: k, text: None, raw: None });
        proof {
            assert forall|i: int, j: int|
                0 <= i < j < self.slots@.len() implies self.slots@[i].key@ != self.slots@[
            j].key@ by {
                if j < self.slots@.len() - 1 {
                } else {
                    assert(self.slots@[j].key@ == key@);
                    if self.slots@[i].key@ == key@ {
                        assert(old(self).has_slot(key@));
                    }
                }
            }
        }
        slot
    }

    /// Second step: the caller reports whether the physical path exists.
    /// An existing file is memoized; a missing package file in the
    /// recognized registry namespace triggers the one download attempt;
    /// everything else is missing.
    pub fn note_probe(&mut self, key: &FileKey, exists: bool) -> (r: ProbeStep)
        requires
            old(self).wf(),
            recognized(key@),
            !old(self).has_slot(key@),
            old(self).slots@.len() < usize::MAX,
        ensures
            final(self).wf(),
            final(self).root@ == old(self).root@,
            (match r {
                ProbeStep::Have { slot } => {
                    &&& exists
                    &&& (slot as int) < final(self).slots@.len()
                    &&& final(self).slots@[slot as int].key@ == key@
                },
                ProbeStep::Fetch { url, dir } => {
                    &&& !exists
                    &&& key@ matches FileKeyV::Package { pkg, .. } && pkg.namespace
                        == preview_namespace() && url@ == archive_url_of(pkg) && dir@
                        == package_dir_of(final(self).root@, pkg)
                    &&& *final(self) == *old(self)
                },
                ProbeStep::Missing => {
                    &&& !exists
                    &&& (match key@ {
                        FileKeyV::Local { .. } => true,
                        FileKeyV::Package { pkg, .. } => pkg.namespace != preview_namespace(),
                    })
                    &&& *final(self) == *old(self)
                },
            }),
    {
        if exists {
            let slot = self.add_slot(key);
            return ProbeStep::Have { slot };
        }
        match key {
            FileKey::Local { .. } => ProbeStep::Missing,
            FileKey::Package { pkg, .. } => {
                let mut preview: Vec<u8> = Vec::new();
                preview.push(112);
                preview.push(114);
                preview.push(101);
                preview.push(118);
                preview.push(105);
                preview.push(101);
                preview.push(119);
                proof {
                    assert(preview@ =~= preview_namespace());
                }
                if bytes_eq(&pkg.namespace, &preview) {
                    let url = Self::archive_url(pkg);
                    let dir = self.package_dir(pkg);
                    ProbeStep::Fetch { url, dir }
                } else {
                    ProbeStep::Missing
                }
            },
        }
    }

    /// Last step: the caller reports whether the file exists after the
    /// download attempt.  No further fetch is possible.
    pub fn note_fetched(&mut self, key: &FileKey, exists: bool) -> (r: RetryStep)
        requires
            old(self).wf(),
            recognized(key@),
            !old(self).has_slot(key@),
            old(self).slots@.len() < usize::MAX,
        ensures
            final(self).wf(),
            final(self).root@ == old(self).root@,
            (match r {
                RetryStep::Have { slot } => {
                    &&& exists
                    &&& (slot as int) < final(self).slots@.len()
                    &&& final(self).slots@[slot as int].key@ == key@
                },
                RetryStep::Missing => !exists && *final(self) == *old(self),
            }),
    {
        if exists {
            let slot = self.add_slot(key);
            RetryStep::Have { slot }
        } else {
            RetryStep::Missing
        }
    }

    /// The directory a package unpacks into.
    pub fn package_dir(&self, pkg: &PackageId) -> (r: Vec<u8>)
        ensures
            r@ == package_dir_of(self.root@, pkg@),
    {
        let mut out: Vec<u8> = Vec::new();
        push_all(&mut out, &self.root);
        push_str_bytes(&mut out, "/packages/");
        push_all(&mut out, &pkg.namespace);
        out.push(47);
        push_all(&mut out, &pkg.name);
        out.push(47);
        push_u32_dec(&mut out, pkg.major);
        out.push(46);
        push_u32_dec(&mut out, pkg.minor);
        out.push(46);
        push_u32_dec(&mut out, pkg.patch);
        proof {
            assert(out@ =~= package_dir_of(self.root@, pkg@));
        }
        out
    }

    /// The registry URL of a package archive.
    pub fn archive_url(pkg: &PackageId) -> (r: Vec<u8>)
        ensures
            r@ == archive_url_of(pkg@),
    {
        let mut out: Vec<u8> = Vec::new();
        push_str_bytes(&mut out, "https://packages.typst.org/preview/");
        push_all(&mut out, &pkg.name);
        out.push(45);
        push_u32_dec(&mut out, pkg.major);
        out.push(46);
        push_u32_dec(&mut out, pkg.minor);
        out.push(46);
        push_u32_dec(&mut out, pkg.patch);
        push_str_bytes(&mut out, ".tar.gz");
        proof {
            assert(out@ =~= archive_url_of(pkg@));
        }
        out
    }

    /// The memoized text outcome of a slot, if it was ever computed.
    pub fn slot_text(&self, slot: usize) -> (r: &Option<Result<Vec<u8>, FileFault>>)
        requires
            (slot as int) < self.slots@.len(),
        ensures
            *r == self.slots@[slot as int].text,
    {
        &self.slots[slot].text
    }

    /// The memoized raw-bytes outcome of a slot, if it was ever computed.
    pub fn slot_raw(&self, slot: usize) -> (r: &Option<Result<Vec<u8>, FileFault>>)
        requires
            (slot as int) < self.slots@.len(),
        ensures
            *r == self.slots@[slot as int].raw,
    {
        &self.slots[slot].raw
    }

    /// Fill a slot's text outcome.  The cell is write-once: a slot that is
    /// already populated keeps its first value and the new one is dropped.
    pub fn fill_text(&mut self, slot: usize, value: Result<Vec<u8>, FileFault>)
        requires
            old(self).wf(),
            (slot as int) < old(self).slots@.len(),
        ensures
            final(self).wf(),
            final(self).root@ == old(self).root@,
            final(self).slots@.len() == old(self).slots@.len(),
            forall|m: int|
                0 <= m < old(self).slots@.len() && m != slot as int ==> final(self).slots@[m]
                    == old(self).slots@[m],
            final(self).slots@[slot as int].key@ == old(self).slots@[slot as int].key@,
            final(self).slots@[slot as int].raw == old(self).slots@[slot as int].raw,
            old(self).slots@[slot as int].text is Some ==> final(self).slots@[slot as int].text
                == old(self).slots@[slot as int].text,
            old(self).slots@[slot as int].text is None ==> final(self).slots@[slot as int].text
                == Some(value),
    {
        let cell = &mut self.slots[slot];
        match &cell.text {
            Some(_) => {},
            None => {
                cell.text = Some(value);
            },
        }
        proof {
            assert forall|i: int, j: int|
                0 <= i < j < self.slots@.len() implies self.slots@[i].key@ != self.slots@[
            j].key@ by {
                assert(self.slots@[i].key@ == old(self).slots@[i].key@);
                assert(self.slots@[j].key@ == old(self).slots@[j].key@);
            }
        }
    }

    /// Fill a slot's raw-bytes outcome; write-once like `fill_text`.
    pub fn fill_raw(&mut self, slot: usize, value: Result<Vec<u8>, FileFault>)
        requires
            old(self).wf(),
            (slot as int) < old(self).slots@.len(),
        ensures
            final(self).wf(),
            final(self).root@ == old(self).root@,
            final(self).slots@.len() == old(self).slots@.len(),
            forall|m: int|
                0 <= m < old(self).slots@.len() && m != slot as int ==> final(self).slots@[m]
                    == old(self).slots@[m],
            final(self).slots@[slot as int].key@ == old(self).slots@[slot as int].key@,
            final(self).slots@[slot as int].text == old(self).slots@[slot as int].text,
            old(self).slots@[slot as int].raw is Some ==> final(self).slots@[slot as int].raw
                == old(self).slots@[slot as int].raw,
            old(self).slots@[slot as int].raw is None ==> final(self).slots@[slot as int].raw
                == Some(value),
    {
        let cell = &mut self.slots[slot];
        match &cell.raw {
            Some(_) => {},
            None => {
                cell.raw = Some(value);
            },
        }
        proof {
            assert forall|i: int, j: int|
                0 <= i < j < self.slots@.len() implies self.slots@[i].key@ != self.slots@[
            j].key@ by {
                assert(self.slots@[i].key@ == old(self).slots@[i].key@);
                assert(self.slots@[j].key@ == old(self).slots@[j].key@);
            }
        }
    }

    /// The relative path of the synthesized main document; it never exists
    /// on disk.
    pub fn main_vpath() -> (r: Vec<u8>)
        ensures
            r@ == "_main.typ".spec_bytes(),
    {
        str_to_vec("_main.typ")
    }

    /// The relative path of the stored fingerprint marker.
    pub fn sha_vpath() -> (r: Vec<u8>)
        ensures
            r@ == "_sha".spec_bytes(),
    {
        str_to_vec("_sha")
    }
}

} // verus!
