//! Resource groups: the nodes of the kernel's process-containment tree, seen
//! through the control files of each node.
//!
//! A `Cgroup` is the manager's image of one node: its path, the text of its
//! membership and status records, its freeze control, and the children that
//! were created below it. The operations work on that image. Whoever drives
//! the manager loads the records before an operation, and tells an operation
//! that needs a child made what the file system answered.

use crate::decimal::{format_i32, lemma_parse_pid_of_decimal, parse_i32, parse_pid, signed_decimal};
use crate::text::{
    contains, copy, has_infix, has_prefix, pieces, rows, same_bytes, split, starts_with, tail,
    NEWLINE,
};
use vstd::prelude::*;

verus! {

/// Why an operation on a resource group failed.
#[derive(Debug)]
pub enum Error {
    /// A control file of the node at this path could not be read or written.
    IoError(Vec<u8>),
    /// The process is in no group of the unified hierarchy.
    NoCgroupv2,
    /// No child could be created below the node at this path.
    CantCreate(Vec<u8>),
    /// The membership record holds this line, which is no process id.
    InvalidPidEntry(Vec<u8>),
    /// The node still holds processes directly.
    IsLeaf,
}

/// What a `Cgroup` stands for.
pub struct CgroupView {
    /// Where the node lies.
    pub path: Seq<u8>,
    /// The lines of the membership record.
    pub procs: Seq<Seq<u8>>,
    /// The text of the status record.
    pub events: Seq<u8>,
    /// Whether the freeze control asks for the node to be frozen.
    pub freeze: bool,
    /// The names of the children created below the node, oldest first.
    pub children: Seq<Seq<u8>>,
    /// Whether the node's control files can be read and written.
    pub present: bool,
}

/// The image of one node of the resource-group tree.
#[derive(Debug)]
pub struct Cgroup {
    self_path: Vec<u8>,
    procs: Vec<Vec<u8>>,
    events: Vec<u8>,
    freeze: bool,
    children: Vec<Vec<u8>>,
    present: bool,
}

impl View for Cgroup {
    type V = CgroupView;

    closed spec fn view(&self) -> CgroupView {
        CgroupView {
            path: self.self_path@,
            procs: rows(self.procs@),
            events: self.events@,
            freeze: self.freeze,
            children: rows(self.children@),
            present: self.present,
        }
    }
}

/// The bytes that write `text`.
pub open spec fn text_bytes(text: Seq<char>) -> Seq<u8> {
    vstd::utf8::encode_utf8(text)
}

/// The bytes of a piece of text.
pub open spec fn bytes_of(s: &str) -> Seq<u8> {
    text_bytes(s@)
}

/// Where the unified hierarchy is mounted.
pub open spec fn mount_path() -> Seq<u8> {
    bytes_of("/sys/fs/cgroup/unified")
}

/// The path of the child `name` of the node at `parent`.
pub open spec fn child_path(parent: Seq<u8>, name: Seq<u8>) -> Seq<u8> {
    parent + bytes_of("/") + name
}

/// `s` without its first `n` bytes, or without all of them where it has fewer.
pub open spec fn skip(s: Seq<u8>, n: nat) -> Seq<u8> {
    if n <= s.len() {
        s.subrange(n as int, s.len() as int)
    } else {
        Seq::empty()
    }
}

/// Whether `line` is the entry of the unified hierarchy in a process's list of
/// groups.
pub open spec fn is_unified_entry(line: Seq<u8>) -> bool {
    has_prefix(line, bytes_of("0::"))
}

/// Whether `lines[i]` is the first entry of the unified hierarchy.
pub open spec fn first_unified_entry(lines: Seq<Seq<u8>>, i: int) -> bool {
    &&& 0 <= i < lines.len()
    &&& is_unified_entry(lines[i])
    &&& forall|j: int| 0 <= j < i ==> !is_unified_entry(#[trigger] lines[j])
}

/// The first entry of the unified hierarchy among `lines`, if there is one.
pub open spec fn unified_entry(lines: Seq<Seq<u8>>) -> Option<Seq<u8>> {
    if exists|i: int| first_unified_entry(lines, i) {
        Some(lines[choose|i: int| first_unified_entry(lines, i)])
    } else {
        None
    }
}

/// The group that a process's list of groups names for the unified
/// hierarchy: what follows `0::` in the first entry that begins so.
pub open spec fn own_group(proc_content: Seq<u8>) -> Option<Seq<u8>> {
    match unified_entry(pieces(proc_content, NEWLINE)) {
        Some(line) => Some(skip(line, bytes_of("0::").len())),
        None => None,
    }
}

/// There is one first entry at most.
pub proof fn lemma_first_unified_entry(lines: Seq<Seq<u8>>, i: int)
    requires
        first_unified_entry(lines, i),
    ensures
        unified_entry(lines) == Some(lines[i]),
{
    let k = choose|k: int| first_unified_entry(lines, k);
    if k < i {
        assert(!is_unified_entry(lines[k]));
    } else if i < k {
        assert(!is_unified_entry(lines[i]));
    }
}

/// Whether a line of a membership record is neither empty nor a process id.
pub open spec fn bad_line(line: Seq<u8>) -> bool {
    line.len() > 0 && parse_pid(line) is None
}

/// Whether `lines[i]` is the first line that is neither empty nor a process
/// id.
pub open spec fn first_bad_line(lines: Seq<Seq<u8>>, i: int) -> bool {
    &&& 0 <= i < lines.len()
    &&& bad_line(lines[i])
    &&& forall|j: int| 0 <= j < i ==> !bad_line(#[trigger] lines[j])
}

/// The first line of a membership record that is neither empty nor a process
/// id, if there is one.
pub open spec fn unreadable_line(lines: Seq<Seq<u8>>) -> Option<Seq<u8>> {
    if exists|i: int| first_bad_line(lines, i) {
        Some(lines[choose|i: int| first_bad_line(lines, i)])
    } else {
        None
    }
}

/// There is one first unreadable line at most.
pub proof fn lemma_first_bad_line(lines: Seq<Seq<u8>>, i: int)
    requires
        first_bad_line(lines, i),
    ensures
        unreadable_line(lines) == Some(lines[i]),
        !readable(lines),
{
    let k = choose|k: int| first_bad_line(lines, k);
    if k < i {
        assert(!bad_line(lines[k]));
    } else if i < k {
        assert(!bad_line(lines[i]));
    }
}

/// A record is readable where no line of it is unreadable.
pub proof fn lemma_readable(lines: Seq<Seq<u8>>)
    ensures
        readable(lines) <==> unreadable_line(lines) is None,
    decreases lines.len(),
{
    if !readable(lines) {
        let i = choose|i: int| 0 <= i < lines.len() && bad_line(#[trigger] lines[i]);
        lemma_some_first_bad(lines, i);
    }
    if unreadable_line(lines) is Some {
        let k = choose|k: int| first_bad_line(lines, k);
        assert(bad_line(lines[k]));
    }
}

proof fn lemma_some_first_bad(lines: Seq<Seq<u8>>, i: int)
    requires
        0 <= i < lines.len(),
        bad_line(lines[i]),
    ensures
        exists|k: int| first_bad_line(lines, k),
    decreases i,
{
    if exists|j: int| 0 <= j < i && bad_line(#[trigger] lines[j]) {
        let j = choose|j: int| 0 <= j < i && bad_line(#[trigger] lines[j]);
        lemma_some_first_bad(lines, j);
    } else {
        assert(first_bad_line(lines, i));
    }
}

/// Whether every line of a membership record is empty or a process id.
pub open spec fn readable(lines: Seq<Seq<u8>>) -> bool {
    forall|i: int| 0 <= i < lines.len() ==> !bad_line(#[trigger] lines[i])
}

/// The process ids that a membership record lists, in the order of its lines.
pub open spec fn listed_pids(lines: Seq<Seq<u8>>) -> Seq<i32>
    decreases lines.len(),
{
    if lines.len() == 0 {
        Seq::empty()
    } else {
        let before = listed_pids(lines.drop_last());
        match parse_pid(lines.last()) {
            Some(pid) => before.push(pid),
            None => before,
        }
    }
}

/// The membership record that lists `pids` and nothing else, one to a line.
pub open spec fn record_of(pids: Seq<i32>) -> Seq<Seq<u8>> {
    Seq::new(pids.len(), |i: int| signed_decimal(pids[i] as int))
}

/// A record written from a list of process ids is readable and lists them.
pub proof fn lemma_record_lists(pids: Seq<i32>)
    ensures
        readable(record_of(pids)),
        listed_pids(record_of(pids)) == pids,
    decreases pids.len(),
{
    let lines = record_of(pids);
    assert forall|i: int| 0 <= i < lines.len() implies !bad_line(#[trigger] lines[i]) by {
        lemma_parse_pid_of_decimal(pids[i]);
    }
    if pids.len() > 0 {
        lemma_record_lists(pids.drop_last());
        assert(lines.drop_last() =~= record_of(pids.drop_last()));
        lemma_parse_pid_of_decimal(pids.last());
        assert(listed_pids(lines) =~= pids);
    } else {
        assert(listed_pids(lines) =~= pids);
    }
}

/// Finds the calling process's group in the text of its list of groups: what
/// follows `0::` in the first line that begins so.
pub fn find_own_cgroup(proc_content: &[u8]) -> (r: Result<Vec<u8>, Error>)
    ensures
        match r {
            Ok(path) => own_group(proc_content@) == Some(path@),
            Err(e) => e is NoCgroupv2 && own_group(proc_content@) is None,
        },
{
    let lines = split(proc_content, NEWLINE);
    let key = "0::".as_bytes();
    let ghost all = pieces(proc_content@, NEWLINE);
    let mut i: usize = 0;
    while i < lines.len()
        invariant
            i <= lines@.len(),
            rows(lines@) == all,
            all == pieces(proc_content@, NEWLINE),
            key@ == bytes_of("0::"),
            forall|j: int| 0 <= j < i ==> !is_unified_entry(#[trigger] all[j]),
        decreases lines.len() - i,
    {
        let line = lines[i].as_slice();
        proof {
            assert(all[i as int] == lines@[i as int]@);
        }
        if starts_with(line, key) {
            let path = tail(line, key.len());
            proof {
                assert(first_unified_entry(all, i as int));
                assert(line@ == all[i as int]);
                lemma_first_unified_entry(all, i as int);
            }
            return Ok(path);
        }
        i = i + 1;
    }
    proof {
        if exists|k: int| first_unified_entry(all, k) {
            let k = choose|k: int| first_unified_entry(all, k);
            assert(!is_unified_entry(all[k]));
        }
    }
    Err(Error::NoCgroupv2)
}

impl Cgroup {
    /// The image of the calling process's own group, found in the text of its
    /// list of groups. The records of the new image are empty.
    pub fn new_self(proc_content: &[u8]) -> (r: Result<Cgroup, Error>)
        ensures
            match r {
                Ok(group) => own_node(proc_content@) == Some(group@),
                Err(e) => e is NoCgroupv2 && own_node(proc_content@) is None,
            },
    {
        let own = match find_own_cgroup(proc_content) {
            Ok(own) => own,
            Err(e) => {
                return Err(e);
            },
        };
        let below = if own.len() >= 1 {
            tail(own.as_slice(), 1)
        } else {
            Vec::new()
        };
        let mount = "/sys/fs/cgroup/unified".as_bytes();
        let full = join(mount, below.as_slice());
        let group = Cgroup {
            self_path: full,
            procs: Vec::new(),
            events: Vec::new(),
            freeze: false,
            children: Vec::new(),
            present: true,
        };
        proof {
            assert(group@.procs =~= Seq::empty());
            assert(group@.children =~= Seq::empty());
        }
        Ok(group)
    }

    /// Where the node lies.
    pub fn path(&self) -> (r: &Vec<u8>)
        ensures
            r@ == self@.path,
    {
        &self.self_path
    }

    /// Whether the freeze control asks for the node to be frozen.
    pub fn freeze_requested(&self) -> (r: bool)
        ensures
            r == self@.freeze,
    {
        self.freeze
    }

    /// Whether the node's control files can be read and written.
    pub fn is_present(&self) -> (r: bool)
        ensures
            r == self@.present,
    {
        self.present
    }

    /// The names of the children created below the node, oldest first.
    pub fn children(&self) -> (r: &Vec<Vec<u8>>)
        ensures
            rows(r@) == self@.children,
    {
        &self.children
    }

    /// The lines of the membership record, to be written to the node.
    pub fn membership_record(&self) -> (r: &Vec<Vec<u8>>)
        ensures
            rows(r@) == self@.procs,
    {
        &self.procs
    }

    /// Takes `content` as the text of the node's membership record.
    pub fn load_procs(&mut self, content: &[u8])
        ensures
            final(self)@ == (CgroupView { procs: pieces(content@, NEWLINE), ..old(self)@ }),
    {
        self.procs = split(content, NEWLINE);
    }

    /// Takes `content` as the text of the node's status record.
    pub fn load_events(&mut self, content: &[u8])
        ensures
            final(self)@ == (CgroupView { events: content@, ..old(self)@ }),
    {
        self.events = copy(content);
    }

    /// Records whether the node's control files can still be reached.
    pub fn set_present(&mut self, present: bool)
        ensures
            final(self)@ == (CgroupView { present, ..old(self)@ }),
    {
        self.present = present;
    }
}

/// The node of the calling process's own group, as its list of groups names
/// it: below the mount point, at the group's path without its leading `/`,
/// and with empty records.
pub open spec fn own_node(proc_content: Seq<u8>) -> Option<CgroupView> {
    match own_group(proc_content) {
        Some(group) => Some(fresh_node(child_path(mount_path(), skip(group, 1)))),
        None => None,
    }
}

/// The node `node` after it was made an inner node with the child `name`: its
/// membership record is empty.
pub open spec fn inner_node(node: CgroupView, name: Seq<u8>) -> CgroupView {
    CgroupView { procs: Seq::empty(), children: with_child(node.children, name), ..node }
}

/// The child `name` that took the processes of `node` when that was made an
/// inner node: its membership record lists them, one to a line.
pub open spec fn first_leaf(node: CgroupView, name: Seq<u8>) -> CgroupView {
    CgroupView {
        procs: record_of(listed_pids(node.procs)),
        ..fresh_node(child_path(node.path, name))
    }
}

/// Whether `e` says why the membership record of `node` could not be read:
/// the node cannot be reached, or the record holds a line that is neither
/// empty nor a process id, of which `e` carries the first.
pub open spec fn is_read_failure(e: Error, node: CgroupView) -> bool {
    match e {
        Error::IoError(path) => !node.present && path@ == node.path,
        Error::InvalidPidEntry(line) => node.present && unreadable_line(node.procs) == Some(
            line@,
        ),
        _ => false,
    }
}

/// Whether a leaf can be made below `node`, where the file system answered
/// `created` when the child was to be made: the node holds no process, and
/// the child was made.
pub open spec fn can_make_leaf(node: CgroupView, created: Result<(), Error>) -> bool {
    members(node) == Some(Seq::<i32>::empty()) && created is Ok
}

/// Whether `e` says why no leaf was made below `node`: the membership record
/// could not be read; or it lists a process; or, where it lists none, the
/// file system did not make the child, and `e` is what it answered.
pub open spec fn is_leaf_failure(e: Error, node: CgroupView, created: Result<(), Error>) -> bool {
    match members(node) {
        None => is_read_failure(e, node),
        Some(pids) => if pids.len() > 0 {
            e is IsLeaf
        } else {
            created == Err::<(), Error>(e)
        },
    }
}

/// Whether a node can be made an inner node, where the file system answered
/// `created` when the child was to be made and `moved` when the processes
/// were to be moved into it.
pub open spec fn can_make_inner(
    node: CgroupView,
    created: Result<(), Error>,
    moved: Result<(), Error>,
) -> bool {
    members(node) is Some && created is Ok && moved is Ok
}

/// Whether `e` says why `node` was not made an inner node: the membership
/// record could not be read; or the file system did not make the child; or
/// it did not move every process. In the last two cases `e` is what the file
/// system answered.
pub open spec fn is_inner_failure(
    e: Error,
    node: CgroupView,
    created: Result<(), Error>,
    moved: Result<(), Error>,
) -> bool {
    match members(node) {
        None => is_read_failure(e, node),
        Some(_) => match created {
            Err(why) => e == why,
            Ok(()) => moved == Err::<(), Error>(e),
        },
    }
}

/// The processes that a node holds directly, where its membership record can
/// be read: `None` where the node cannot be reached or a line of the record
/// is neither empty nor a process id.
pub open spec fn members(node: CgroupView) -> Option<Seq<i32>> {
    if node.present && readable(node.procs) {
        Some(listed_pids(node.procs))
    } else {
        None
    }
}

/// A node without records and without children.
pub open spec fn fresh_node(path: Seq<u8>) -> CgroupView {
    CgroupView {
        path,
        procs: Seq::empty(),
        events: Seq::empty(),
        freeze: false,
        children: Seq::empty(),
        present: true,
    }
}

/// The children of a node after `name` was created below it: a name that is
/// there already is not added again.
pub open spec fn with_child(children: Seq<Seq<u8>>, name: Seq<u8>) -> Seq<Seq<u8>> {
    if children.contains(name) {
        children
    } else {
        children.push(name)
    }
}

/// One more line with a process id adds that id to what the record lists.
pub proof fn lemma_listed_push(lines: Seq<Seq<u8>>, pid: i32)
    ensures
        listed_pids(lines.push(signed_decimal(pid as int))) == listed_pids(lines).push(pid),
        readable(lines) ==> readable(lines.push(signed_decimal(pid as int))),
{
    let longer = lines.push(signed_decimal(pid as int));
    lemma_parse_pid_of_decimal(pid);
    assert(longer.drop_last() =~= lines);
    if readable(lines) {
        assert forall|i: int| 0 <= i < longer.len() implies !bad_line(#[trigger] longer[i]) by {
            if i < lines.len() {
                assert(longer[i] == lines[i]);
            }
        }
    }
}

impl Cgroup {
    /// The processes that the node holds directly, as its membership record
    /// lists them.
    pub fn get_pids(&self) -> (r: Result<Vec<i32>, Error>)
        ensures
            match r {
                Ok(pids) => members(self@) == Some(pids@),
                Err(e) => is_read_failure(e, self@) && members(self@) is None,
            },
    {
        if !self.present {
            return Err(Error::IoError(copy(self.self_path.as_slice())));
        }
        let mut pids: Vec<i32> = Vec::new();
        let mut i: usize = 0;
        let ghost lines = self@.procs;
        proof {
            assert(lines.subrange(0, 0) =~= Seq::<Seq<u8>>::empty());
        }
        while i < self.procs.len()
            invariant
                i <= self.procs@.len(),
                lines == rows(self.procs@),
                lines == self@.procs,
                self@.present,
                forall|j: int| 0 <= j < i ==> !bad_line(#[trigger] lines[j]),
                pids@ == listed_pids(lines.subrange(0, i as int)),
            decreases self.procs.len() - i,
        {
            let line = self.procs[i].as_slice();
            proof {
                assert(line@ == lines[i as int]);
                let longer = lines.subrange(0, i + 1);
                assert(longer.drop_last() =~= lines.subrange(0, i as int));
                assert(longer.last() == line@);
            }
            if line.len() > 0 {
                match parse_i32(line) {
                    Some(pid) => {
                        pids.push(pid);
                    },
                    None => {
                        proof {
                            assert(first_bad_line(lines, i as int));
                            lemma_first_bad_line(lines, i as int);
                        }
                        return Err(Error::InvalidPidEntry(copy(line)));
                    },
                }
            }
            i = i + 1;
        }
        proof {
            assert(lines.subrange(0, lines.len() as int) =~= lines);
        }
        Ok(pids)
    }

    /// Adds a process to the node: its id becomes the last line of the
    /// membership record.
    pub fn move_into(&mut self, pid: i32) -> (r: Result<(), Error>)
        ensures
            match r {
                Ok(()) => {
                    &&& old(self)@.present
                    &&& final(self)@ == (CgroupView {
                        procs: old(self)@.procs.push(signed_decimal(pid as int)),
                        ..old(self)@
                    })
                    &&& members(old(self)@) is Some ==> members(final(self)@) == Some(
                        members(old(self)@).unwrap().push(pid),
                    )
                },
                Err(Error::IoError(path)) => {
                    &&& !old(self)@.present
                    &&& path@ == old(self)@.path
                    &&& final(self)@ == old(self)@
                },
                Err(_) => false,
            },
    {
        if !self.present {
            return Err(Error::IoError(copy(self.self_path.as_slice())));
        }
        let ghost before = self.procs@;
        self.procs.push(format_i32(pid));
        proof {
            assert(rows(self.procs@) =~= rows(before).push(signed_decimal(pid as int)));
            lemma_listed_push(rows(before), pid);
        }
        Ok(())
    }

    /// Asks for every process in and below the node to be suspended.
    pub fn freeze(&mut self) -> (r: Result<(), Error>)
        ensures
            match r {
                Ok(()) => old(self)@.present && final(self)@ == (CgroupView {
                    freeze: true,
                    ..old(self)@
                }),
                Err(Error::IoError(path)) => {
                    &&& !old(self)@.present
                    &&& path@ == old(self)@.path
                    &&& final(self)@ == old(self)@
                },
                Err(_) => false,
            },
    {
        if !self.present {
            return Err(Error::IoError(copy(self.self_path.as_slice())));
        }
        self.freeze = true;
        Ok(())
    }

    /// Asks for every process in and below the node to run again.
    pub fn thaw(&mut self) -> (r: Result<(), Error>)
        ensures
            match r {
                Ok(()) => old(self)@.present && final(self)@ == (CgroupView {
                    freeze: false,
                    ..old(self)@
                }),
                Err(Error::IoError(path)) => {
                    &&& !old(self)@.present
                    &&& path@ == old(self)@.path
                    &&& final(self)@ == old(self)@
                },
                Err(_) => false,
            },
    {
        if !self.present {
            return Err(Error::IoError(copy(self.self_path.as_slice())));
        }
        self.freeze = false;
        Ok(())
    }

    /// Whether the status record says that the node is frozen.
    pub fn is_frozen(&self) -> (r: Result<bool, Error>)
        ensures
            match r {
                Ok(frozen) => self@.present && frozen == has_infix(
                    self@.events,
                    bytes_of("frozen 1"),
                ),
                Err(Error::IoError(path)) => !self@.present && path@ == self@.path,
                Err(_) => false,
            },
    {
        if !self.present {
            return Err(Error::IoError(copy(self.self_path.as_slice())));
        }
        Ok(contains(self.events.as_slice(), "frozen 1".as_bytes()))
    }

    /// Whether the status record says that a process lives in or below the
    /// node.
    pub fn is_populated(&self) -> (r: Result<bool, Error>)
        ensures
            match r {
                Ok(populated) => self@.present && populated == has_infix(
                    self@.events,
                    bytes_of("populated 1"),
                ),
                Err(Error::IoError(path)) => !self@.present && path@ == self@.path,
                Err(_) => false,
            },
    {
        if !self.present {
            return Err(Error::IoError(copy(self.self_path.as_slice())));
        }
        Ok(contains(self.events.as_slice(), "populated 1".as_bytes()))
    }

    /// Records the child `new_group_name` below the node, whatever the node
    /// holds, and returns the child's image. `created` is what the file
    /// system answered when the child was to be made. Where it did not make
    /// the child, or the node is not there, nothing is recorded.
    pub fn new_subgroup(&mut self, new_group_name: &str, created: Result<(), Error>) -> (r: Result<
        Cgroup,
        Error,
    >)
        ensures
            match r {
                Ok(child) => {
                    &&& created is Ok
                    &&& old(self)@.present
                    &&& child@ == fresh_node(
                        child_path(old(self)@.path, text_bytes(new_group_name@)),
                    )
                    &&& final(self)@ == (CgroupView {
                        children: with_child(old(self)@.children, text_bytes(new_group_name@)),
                        ..old(self)@
                    })
                },
                Err(e) => {
                    &&& final(self)@ == old(self)@
                    &&& match created {
                        Err(why) => e == why,
                        Ok(()) => {
                            &&& !old(self)@.present
                            &&& e matches Error::CantCreate(path) && path@ == old(self)@.path
                        },
                    }
                },
            },
    {
        match created {
            Ok(()) => {},
            Err(e) => {
                return Err(e);
            },
        }
        if !self.present {
            return Err(Error::CantCreate(copy(self.self_path.as_slice())));
        }
        let name = new_group_name.as_bytes();
        let full = join(self.self_path.as_slice(), name);
        let mut known: bool = false;
        let mut i: usize = 0;
        while i < self.children.len()
            invariant
                i <= self.children@.len(),
                known <==> exists|j: int| 0 <= j < i && rows(self.children@)[j] == name@,
            decreases self.children.len() - i,
        {
            if same_bytes(self.children[i].as_slice(), name) {
                known = true;
                proof {
                    assert(rows(self.children@)[i as int] == name@);
                }
            }
            i = i + 1;
        }
        let ghost before = self.children@;
        proof {
            if known {
                let j = choose|j: int| 0 <= j < before.len() && rows(before)[j] == name@;
                assert(rows(before).contains(name@));
            } else {
                assert(!rows(before).contains(name@)) by {
                    if rows(before).contains(name@) {
                        let j = choose|j: int|
                            0 <= j < rows(before).len() && rows(before)[j] == name@;
                        assert(0 <= j < before.len() && rows(before)[j] == name@);
                    }
                }
            }
        }
        if !known {
            self.children.push(copy(name));
            proof {
                assert(rows(self.children@) =~= rows(before).push(name@));
            }
        }
        let child = Cgroup {
            self_path: full,
            procs: Vec::new(),
            events: Vec::new(),
            freeze: false,
            children: Vec::new(),
            present: true,
        };
        proof {
            assert(child@.procs =~= Seq::empty());
            assert(child@.children =~= Seq::empty());
        }
        Ok(child)
    }

    /// Records the child `new_group_name` below a node that holds no process
    /// directly. `created` is what the file system answered when the child
    /// was to be made. A node that still holds a process is left as it is,
    /// and so is one whose child was not made.
    pub fn new_leaf(&mut self, new_group_name: &str, created: Result<(), Error>) -> (r: Result<
        Cgroup,
        Error,
    >)
        ensures
            match r {
                Ok(child) => {
                    &&& can_make_leaf(old(self)@, created)
                    &&& child@ == fresh_node(
                        child_path(old(self)@.path, text_bytes(new_group_name@)),
                    )
                    &&& final(self)@ == (CgroupView {
                        children: with_child(old(self)@.children, text_bytes(new_group_name@)),
                        ..old(self)@
                    })
                },
                Err(e) => {
                    &&& !can_make_leaf(old(self)@, created)
                    &&& is_leaf_failure(e, old(self)@, created)
                    &&& final(self)@ == old(self)@
                },
            },
    {
        let pids = match self.get_pids() {
            Ok(pids) => pids,
            Err(e) => {
                return Err(e);
            },
        };
        if pids.len() > 0 {
            return Err(Error::IsLeaf);
        }
        proof {
            assert(pids@ =~= Seq::<i32>::empty());
        }
        self.new_subgroup(new_group_name, created)
    }

    /// Makes the node an inner node: every process that it holds directly
    /// moves into the new child `move_procs_to`, in the order of the
    /// membership record, and the node's own record becomes empty. `created`
    /// and `moved` are what the file system answered when the child was to
    /// be made and the processes were to be moved. The whole record is read
    /// before anything moves, and a failure leaves the node as it is.
    pub fn make_inner_node(
        &mut self,
        move_procs_to: &str,
        created: Result<(), Error>,
        moved: Result<(), Error>,
    ) -> (r: Result<Cgroup, Error>)
        ensures
            match r {
                Ok(child) => {
                    &&& can_make_inner(old(self)@, created, moved)
                    &&& child@ == first_leaf(old(self)@, text_bytes(move_procs_to@))
                    &&& final(self)@ == inner_node(old(self)@, text_bytes(move_procs_to@))
                    &&& members(final(self)@) == Some(Seq::<i32>::empty())
                    &&& members(child@) == members(old(self)@)
                },
                Err(e) => {
                    &&& !can_make_inner(old(self)@, created, moved)
                    &&& is_inner_failure(e, old(self)@, created, moved)
                    &&& final(self)@ == old(self)@
                },
            },
    {
        let pids = match self.get_pids() {
            Ok(pids) => pids,
            Err(e) => {
                return Err(e);
            },
        };
        match created {
            Ok(()) => {},
            Err(e) => {
                return Err(e);
            },
        }
        match moved {
            Ok(()) => {},
            Err(e) => {
                return Err(e);
            },
        }
        let mut new_leaf = match self.new_subgroup(move_procs_to, Ok(())) {
            Ok(child) => child,
            Err(e) => {
                return Err(e);
            },
        };
        let ghost empty_leaf = new_leaf@;
        let mut i: usize = 0;
        proof {
            assert(record_of(pids@.subrange(0, 0)) =~= Seq::<Seq<u8>>::empty());
        }
        while i < pids.len()
            invariant
                i <= pids@.len(),
                new_leaf@ == (CgroupView {
                    procs: record_of(pids@.subrange(0, i as int)),
                    ..empty_leaf
                }),
                empty_leaf.present,
            decreases pids.len() - i,
        {
            match new_leaf.move_into(pids[i]) {
                Ok(()) => {},
                Err(e) => {
                    return Err(e);
                },
            }
            proof {
                assert(record_of(pids@.subrange(0, i + 1)) =~= record_of(
                    pids@.subrange(0, i as int),
                ).push(signed_decimal(pids@[i as int] as int)));
            }
            i = i + 1;
        }
        self.procs = Vec::new();
        proof {
            assert(pids@.subrange(0, pids@.len() as int) =~= pids@);
            assert(rows(self.procs@) =~= Seq::<Seq<u8>>::empty());
            lemma_record_lists(pids@);
            assert(listed_pids(Seq::<Seq<u8>>::empty()) =~= Seq::<i32>::empty());
        }
        Ok(new_leaf)
    }
}

/// The path of the child `name` of the node at `parent`.
pub fn join(parent: &[u8], name: &[u8]) -> (out: Vec<u8>)
    ensures
        out@ == child_path(parent@, name@),
{
    let mut out: Vec<u8> = Vec::new();
    out.extend_from_slice(parent);
    out.extend_from_slice("/".as_bytes());
    out.extend_from_slice(name);
    proof {
        assert(out@ =~= child_path(parent@, name@));
    }
    out
}

} // verus!
