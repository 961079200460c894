//! Device access control: the access-control lists of device files, and the
//! granting and revoking of one user's read and write access.
//!
//! A list is held as plain entries. `DeviceAccess` keeps the lists of the
//! device files that are known to carry one; whoever drives the manager reads
//! them from the files into it. What is to be changed on a file is a
//! `FileOperation`.

use crate::text::{copy, same_bytes};
use vstd::prelude::*;

verus! {

/// Whom an entry of an access-control list speaks of.
#[derive(Clone, Copy, Debug, PartialEq, Eq, Structural)]
pub enum AclTag {
    /// The owner of the file.
    UserObj,
    /// The user with this id.
    User(u32),
    /// The group of the file.
    GroupObj,
    /// The group with this id.
    Group(u32),
    /// The upper bound on what named users and groups may do.
    Mask,
    /// Everybody else.
    Other,
}

/// What an entry allows.
#[derive(Clone, Copy, Debug, PartialEq, Eq, Structural)]
pub struct AclPerms {
    pub read: bool,
    pub write: bool,
    pub execute: bool,
}

/// One entry of an access-control list.
#[derive(Clone, Copy, Debug, PartialEq, Eq, Structural)]
pub struct AclEntry {
    pub tag: AclTag,
    pub perms: AclPerms,
}

/// Why a device's access-control list could not be changed.
#[derive(Debug)]
pub enum Error {
    /// The file at this path carries no access-control list.
    NoAcl(Vec<u8>),
}

/// One change to be made to the list of a device file: the user `uid` is
/// granted access to the file at `path`, or the user's access is revoked.
#[derive(Clone, Debug, PartialEq, Eq)]
pub struct FileOperation {
    /// The path of the device file.
    pub path: Vec<u8>,
    /// The user.
    pub uid: u32,
    /// Whether access is granted; it is revoked otherwise.
    pub grant: bool,
}

/// What a `FileOperation` stands for.
pub struct FileOperationView {
    pub path: Seq<u8>,
    pub uid: u32,
    pub grant: bool,
}

impl View for FileOperation {
    type V = FileOperationView;

    open spec fn view(&self) -> FileOperationView {
        FileOperationView { path: self.path@, uid: self.uid, grant: self.grant }
    }
}

/// The contents of a list of operations.
pub open spec fn operation_views(ops: Seq<FileOperation>) -> Seq<FileOperationView> {
    Seq::new(ops.len(), |i: int| ops[i]@)
}

/// The lists of `access` after `op` was performed. A file that carries no
/// list is passed over.
pub open spec fn performed_one(
    access: Map<Seq<u8>, Seq<AclEntry>>,
    op: FileOperationView,
) -> Map<Seq<u8>, Seq<AclEntry>> {
    if access.dom().contains(op.path) {
        access.insert(
            op.path,
            if op.grant {
                with_user(access[op.path], op.uid)
            } else {
                without_user(access[op.path], op.uid)
            },
        )
    } else {
        access
    }
}

/// The lists of `access` after the operations of `ops` were performed, one
/// after the other.
pub open spec fn performed(
    access: Map<Seq<u8>, Seq<AclEntry>>,
    ops: Seq<FileOperationView>,
) -> Map<Seq<u8>, Seq<AclEntry>>
    decreases ops.len(),
{
    if ops.len() == 0 {
        access
    } else {
        performed_one(performed(access, ops.drop_last()), ops.last())
    }
}

/// Whether `entry` is the entry of the user `uid`.
pub open spec fn names_user(entry: AclEntry, uid: u32) -> bool {
    entry.tag == AclTag::User(uid)
}

/// The entry that gives the user `uid` read and write access, and no more.
pub open spec fn read_write(uid: u32) -> AclEntry {
    AclEntry { tag: AclTag::User(uid), perms: AclPerms { read: true, write: true, execute: false } }
}

/// Whether some entry of `acl` is an entry of the user `uid`.
pub open spec fn has_user(acl: Seq<AclEntry>, uid: u32) -> bool {
    exists|i: int| 0 <= i < acl.len() && names_user(#[trigger] acl[i], uid)
}

/// `acl` without the entries of the user `uid`; the other entries stay in
/// their order.
pub open spec fn without_user(acl: Seq<AclEntry>, uid: u32) -> Seq<AclEntry>
    decreases acl.len(),
{
    if acl.len() == 0 {
        acl
    } else {
        let before = without_user(acl.drop_last(), uid);
        if names_user(acl.last(), uid) {
            before
        } else {
            before.push(acl.last())
        }
    }
}

/// The entries of the user `uid` in `acl`, in their order.
pub open spec fn entries_of_user(acl: Seq<AclEntry>, uid: u32) -> Seq<AclEntry>
    decreases acl.len(),
{
    if acl.len() == 0 {
        acl
    } else {
        let before = entries_of_user(acl.drop_last(), uid);
        if names_user(acl.last(), uid) {
            before.push(acl.last())
        } else {
            before
        }
    }
}

/// `acl` after the user `uid` was granted access: the entries of everybody
/// else in their order, then one entry that gives `uid` read and write
/// access.
pub open spec fn with_user(acl: Seq<AclEntry>, uid: u32) -> Seq<AclEntry> {
    without_user(acl, uid).push(read_write(uid))
}

/// Revoking leaves no entry of the user, and a list without one as it is.
pub proof fn lemma_without_user(acl: Seq<AclEntry>, uid: u32)
    ensures
        !has_user(without_user(acl, uid), uid),
        entries_of_user(without_user(acl, uid), uid) == Seq::<AclEntry>::empty(),
        !has_user(acl, uid) ==> without_user(acl, uid) == acl,
        without_user(without_user(acl, uid), uid) == without_user(acl, uid),
        without_user(acl, uid).len() <= acl.len(),
    decreases acl.len(),
{
    if acl.len() > 0 {
        let shorter = acl.drop_last();
        lemma_without_user(shorter, uid);
        let before = without_user(shorter, uid);
        let after = without_user(acl, uid);
        if names_user(acl.last(), uid) {
            assert(has_user(acl, uid)) by {
                assert(names_user(acl[acl.len() - 1], uid));
            }
        } else {
            assert(after.drop_last() =~= before);
            assert(!has_user(after, uid)) by {
                if has_user(after, uid) {
                    let i = choose|i: int|
                        0 <= i < after.len() && names_user(#[trigger] after[i], uid);
                    if i < before.len() {
                        assert(names_user(before[i], uid));
                    }
                }
            }
            if !has_user(acl, uid) {
                assert(!has_user(shorter, uid)) by {
                    if has_user(shorter, uid) {
                        let i = choose|i: int|
                            0 <= i < shorter.len() && names_user(#[trigger] shorter[i], uid);
                        assert(names_user(acl[i], uid));
                    }
                }
                assert(after =~= acl);
            }
        }
    } else {
        assert(!has_user(acl, uid));
    }
}

/// Revoking one user's access leaves the entries of every other user as they
/// are.
pub proof fn lemma_revoke_keeps_others(acl: Seq<AclEntry>, uid: u32, other: u32)
    requires
        other != uid,
    ensures
        entries_of_user(without_user(acl, uid), other) == entries_of_user(acl, other),
        has_user(without_user(acl, uid), other) == has_user(acl, other),
    decreases acl.len(),
{
    if acl.len() > 0 {
        let shorter = acl.drop_last();
        lemma_revoke_keeps_others(shorter, uid, other);
        let after = without_user(acl, uid);
        let before = without_user(shorter, uid);
        if !names_user(acl.last(), uid) {
            assert(after.drop_last() =~= before);
        }
        if has_user(acl, other) {
            let i = choose|i: int| 0 <= i < acl.len() && names_user(#[trigger] acl[i], other);
            if i < shorter.len() {
                assert(names_user(shorter[i], other));
                let j = choose|j: int|
                    0 <= j < before.len() && names_user(#[trigger] before[j], other);
                if !names_user(acl.last(), uid) {
                    assert(after[j] == before[j]);
                }
                assert(names_user(after[j], other));
            } else {
                assert(names_user(after[after.len() - 1], other));
            }
        }
        if has_user(after, other) {
            let j = choose|j: int| 0 <= j < after.len() && names_user(#[trigger] after[j], other);
            if j < before.len() {
                assert(names_user(before[j], other));
                let i = choose|i: int|
                    0 <= i < shorter.len() && names_user(#[trigger] shorter[i], other);
                assert(names_user(acl[i], other));
            } else {
                assert(names_user(acl[acl.len() - 1], other));
            }
        }
    }
}

/// Granting access leaves exactly one entry of the user, which gives read
/// and write access, and leaves every other entry as it is.
pub proof fn lemma_with_user(acl: Seq<AclEntry>, uid: u32)
    ensures
        has_user(with_user(acl, uid), uid),
        entries_of_user(with_user(acl, uid), uid) == seq![read_write(uid)],
        without_user(with_user(acl, uid), uid) == without_user(acl, uid),
{
    lemma_without_user(acl, uid);
    let granted = with_user(acl, uid);
    assert(granted.drop_last() =~= without_user(acl, uid));
    assert(names_user(granted[granted.len() - 1], uid));
    assert(entries_of_user(granted, uid) =~= seq![read_write(uid)]);
}

/// Granting access to one user leaves the entries of every other user as
/// they are.
pub proof fn lemma_grant_keeps_others(acl: Seq<AclEntry>, uid: u32, other: u32)
    requires
        other != uid,
    ensures
        entries_of_user(with_user(acl, uid), other) == entries_of_user(acl, other),
        has_user(with_user(acl, uid), other) == has_user(acl, other),
{
    lemma_revoke_keeps_others(acl, uid, other);
    let granted = with_user(acl, uid);
    let kept = without_user(acl, uid);
    assert(granted.drop_last() =~= kept);
    if has_user(kept, other) {
        let j = choose|j: int| 0 <= j < kept.len() && names_user(#[trigger] kept[j], other);
        assert(names_user(granted[j], other));
    }
    if has_user(granted, other) {
        let j = choose|j: int| 0 <= j < granted.len() && names_user(#[trigger] granted[j], other);
        assert(names_user(kept[j], other));
    }
}

/// Granting access a second time changes nothing.
pub proof fn lemma_grant_idempotent(acl: Seq<AclEntry>, uid: u32)
    ensures
        with_user(with_user(acl, uid), uid) == with_user(acl, uid),
{
    lemma_with_user(acl, uid);
}

/// Granting access and then revoking it leaves the list that revoking alone
/// would have left: the list from before, where that held no entry of the
/// user.
pub proof fn lemma_grant_then_revoke(acl: Seq<AclEntry>, uid: u32)
    ensures
        without_user(with_user(acl, uid), uid) == without_user(acl, uid),
        !has_user(acl, uid) ==> without_user(with_user(acl, uid), uid) == acl,
        !has_user(without_user(with_user(acl, uid), uid), uid),
{
    lemma_with_user(acl, uid);
    lemma_without_user(acl, uid);
}

/// Whether `entry` is the entry of the user `uid`: an entry of a user, not of
/// a group or of the file's owner, and of that user.
pub fn is_entry_of(entry: &AclEntry, uid: u32) -> (r: bool)
    ensures
        r == names_user(*entry, uid),
{
    entry.tag == AclTag::User(uid)
}

/// Removes the entries of the user `uid` from `acl`. Every entry is looked
/// at; entries of groups and of other users stay.
pub fn revoke(acl: &Vec<AclEntry>, uid: u32) -> (out: Vec<AclEntry>)
    ensures
        out@ == without_user(acl@, uid),
{
    let mut out: Vec<AclEntry> = Vec::new();
    let mut i: usize = 0;
    proof {
        assert(acl@.subrange(0, 0) =~= Seq::<AclEntry>::empty());
    }
    while i < acl.len()
        invariant
            i <= acl@.len(),
            out@ == without_user(acl@.subrange(0, i as int), uid),
        decreases acl.len() - i,
    {
        let entry: AclEntry = acl[i];
        proof {
            let longer = acl@.subrange(0, i + 1);
            assert(longer.drop_last() =~= acl@.subrange(0, i as int));
            assert(longer.last() == entry);
        }
        if !is_entry_of(&entry, uid) {
            out.push(entry);
        }
        i = i + 1;
    }
    proof {
        assert(acl@.subrange(0, acl@.len() as int) =~= acl@);
    }
    out
}

/// Gives the user `uid` read and write access in `acl`: afterwards the list
/// holds one entry of that user, whatever it held of that user before.
pub fn grant(acl: &Vec<AclEntry>, uid: u32) -> (out: Vec<AclEntry>)
    ensures
        out@ == with_user(acl@, uid),
{
    let mut out = revoke(acl, uid);
    out.push(
        AclEntry {
            tag: AclTag::User(uid),
            perms: AclPerms { read: true, write: true, execute: false },
        },
    );
    out
}

/// Whether some entry of `acl` is an entry of the user `uid`.
pub fn user_listed(acl: &Vec<AclEntry>, uid: u32) -> (r: bool)
    ensures
        r == has_user(acl@, uid),
{
    let mut i: usize = 0;
    while i < acl.len()
        invariant
            i <= acl@.len(),
            forall|j: int| 0 <= j < i ==> !names_user(#[trigger] acl@[j], uid),
        decreases acl.len() - i,
    {
        if is_entry_of(&acl[i], uid) {
            return true;
        }
        i = i + 1;
    }
    false
}

/// The access-control list of one device file.
#[derive(Debug)]
pub struct FileAcl {
    path: Vec<u8>,
    entries: Vec<AclEntry>,
}

/// The access-control lists of the device files that carry one, by path.
#[derive(Debug)]
pub struct DeviceAccess {
    files: Vec<FileAcl>,
}

impl View for DeviceAccess {
    type V = Map<Seq<u8>, Seq<AclEntry>>;

    closed spec fn view(&self) -> Map<Seq<u8>, Seq<AclEntry>> {
        Map::new(
            |path: Seq<u8>| self.slot_of(path) is Some,
            |path: Seq<u8>| self.files[self.slot_of(path).unwrap()].entries@,
        )
    }
}

impl DeviceAccess {
    /// Where the list of the file at `path` is kept, if it is kept.
    closed spec fn slot_of(&self, path: Seq<u8>) -> Option<int> {
        if exists|i: int| 0 <= i < self.files.len() && #[trigger] self.files[i].path@ == path {
            Some(choose|i: int| 0 <= i < self.files.len() && #[trigger] self.files[i].path@ == path)
        } else {
            None
        }
    }

    /// No path is kept twice.
    pub closed spec fn wf(&self) -> bool {
        forall|i: int, j: int|
            0 <= i < j < self.files.len() ==> #[trigger] self.files[i].path@
                != #[trigger] self.files[j].path@
    }

    proof fn lemma_slot(&self, i: int)
        requires
            self.wf(),
            0 <= i < self.files.len(),
        ensures
            self.slot_of(self.files[i].path@) == Some(i),
            self@.dom().contains(self.files[i].path@),
            self@[self.files[i].path@] == self.files[i].entries@,
    {
        let path = self.files[i].path@;
        let j = choose|j: int| 0 <= j < self.files.len() && #[trigger] self.files[j].path@ == path;
        if j < i {
            assert(self.files[j].path@ != self.files[i].path@);
        } else if i < j {
            assert(self.files[i].path@ != self.files[j].path@);
        }
    }

    /// A store that knows no file.
    pub fn new() -> (r: DeviceAccess)
        ensures
            r.wf(),
            r@ == Map::<Seq<u8>, Seq<AclEntry>>::empty(),
    {
        let r = DeviceAccess { files: Vec::new() };
        proof {
            assert(r@ =~= Map::<Seq<u8>, Seq<AclEntry>>::empty());
        }
        r
    }

    fn find(&self, path: &[u8]) -> (r: Option<usize>)
        requires
            self.wf(),
        ensures
            match r {
                Some(i) => i < self.files.len() && self.files[i as int].path@ == path@
                    && self.slot_of(path@) == Some(i as int),
                None => self.slot_of(path@) is None,
            },
            r is Some <==> self@.dom().contains(path@),
    {
        let mut i: usize = 0;
        while i < self.files.len()
            invariant
                i <= self.files.len(),
                self.wf(),
                forall|j: int| 0 <= j < i ==> #[trigger] self.files[j].path@ != path@,
            decreases self.files.len() - i,
        {
            if same_bytes(self.files[i].path.as_slice(), path) {
                proof {
                    self.lemma_slot(i as int);
                }
                return Some(i);
            }
            i = i + 1;
        }
        None
    }

    /// Whether the list of the file at `path` is kept.
    pub fn is_tracked(&self, path: &[u8]) -> (r: bool)
        requires
            self.wf(),
        ensures
            r == self@.dom().contains(path@),
    {
        self.find(path).is_some()
    }

    /// The list of the file at `path`, if it is kept.
    pub fn entries(&self, path: &[u8]) -> (r: Option<&Vec<AclEntry>>)
        requires
            self.wf(),
        ensures
            match r {
                Some(entries) => self@.dom().contains(path@) && entries@ == self@[path@],
                None => !self@.dom().contains(path@),
            },
    {
        match self.find(path) {
            Some(i) => Some(&self.files[i].entries),
            None => None,
        }
    }

    /// Takes `entries` as the list of the file at `path`, in place of what was
    /// kept for that path.
    pub fn track(&mut self, path: &[u8], entries: Vec<AclEntry>)
        requires
            old(self).wf(),
        ensures
            final(self).wf(),
            final(self)@ == old(self)@.insert(path@, entries@),
    {
        let found = self.find(path);
        let ghost before = *self;
        let ghost list = entries@;
        let file = FileAcl { path: copy(path), entries };
        match found {
            Some(i) => {
                self.files.set(i, file);
            },
            None => {
                self.files.push(file);
            },
        }
        proof {
            let slot: int = match found {
                Some(i) => i as int,
                None => before.files.len() as int,
            };
            assert(self.files[slot].path@ == path@);
            assert(self.files[slot].entries@ == list);
            assert(found is Some ==> self.files.len() == before.files.len());
            assert(found is None ==> self.files.len() == before.files.len() + 1);
            assert forall|k: int| 0 <= k < self.files.len() && k != slot implies (
            #[trigger] self.files[k]) == before.files[k] && before.files[k].path@ != path@ by {
                if found is None {
                    assert(before.slot_of(path@) is None);
                } else {
                    if k < slot {
                        assert(before.files[k].path@ != before.files[slot].path@);
                    } else {
                        assert(before.files[slot].path@ != before.files[k].path@);
                    }
                }
            }
            assert(self.wf()) by {
                assert forall|a: int, b: int| 0 <= a < b < self.files.len() implies (
                #[trigger] self.files[a].path@) != (#[trigger] self.files[b].path@) by {
                    if a != slot && b != slot {
                        assert(before.files[a].path@ != before.files[b].path@);
                    }
                }
            }
            self.lemma_slot(slot);
            assert forall|p: Seq<u8>| p != path@ implies (#[trigger] self.slot_of(p)
                is Some <==> before.slot_of(p) is Some) && (self.slot_of(p) is Some
                ==> self.files[self.slot_of(p).unwrap()].entries@
                == before.files[before.slot_of(p).unwrap()].entries@) by {
                if before.slot_of(p) is Some {
                    let k = before.slot_of(p).unwrap();
                    assert(k != slot);
                    assert(self.files[k] == before.files[k]);
                    self.lemma_slot(k);
                }
                if self.slot_of(p) is Some {
                    let k = self.slot_of(p).unwrap();
                    assert(k != slot);
                    assert(self.files[k] == before.files[k]);
                    before.lemma_slot(k);
                }
            }
            assert(self@ =~= before@.insert(path@, list));
        }
    }

    /// Gives the user `uid` read and write access to the device file at
    /// `path`. Fails, and changes nothing, where the file carries no list.
    pub fn grant(&mut self, path: &[u8], uid: u32) -> (r: Result<(), Error>)
        requires
            old(self).wf(),
        ensures
            final(self).wf(),
            match r {
                Ok(()) => old(self)@.dom().contains(path@) && final(self)@ == old(self)@.insert(
                    path@,
                    with_user(old(self)@[path@], uid),
                ),
                Err(Error::NoAcl(p)) => !old(self)@.dom().contains(path@) && p@ == path@
                    && final(self)@ == old(self)@,
            },
    {
        let granted = match self.entries(path) {
            Some(entries) => grant(entries, uid),
            None => {
                return Err(Error::NoAcl(copy(path)));
            },
        };
        self.track(path, granted);
        Ok(())
    }

    /// Takes the read and write access of the user `uid` to the device file
    /// at `path` away again. A file that carries no list is left alone.
    pub fn revoke(&mut self, path: &[u8], uid: u32)
        requires
            old(self).wf(),
        ensures
            final(self).wf(),
            final(self)@ == if old(self)@.dom().contains(path@) {
                old(self)@.insert(path@, without_user(old(self)@[path@], uid))
            } else {
                old(self)@
            },
    {
        let revoked = match self.entries(path) {
            Some(entries) => revoke(entries, uid),
            None => {
                return ;
            },
        };
        self.track(path, revoked);
    }
}

} // verus!
