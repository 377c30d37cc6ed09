//! What has to happen on disk for a note: every note has one snapshot
//! file, named after its identifier, and a note without tags has none.

use crate::resource::{Resource, ResourceView};
use vstd::prelude::*;
use vstd::string::StringExecFns;

verus! {

/// One step of bringing the snapshot files up to date.
#[derive(Debug)]
pub enum SyncAction {
    /// Delete the snapshot file at `path`.
    Remove { path: String },
    /// Write `resource` to the snapshot file at `path`, replacing what is
    /// there.
    Write { path: String, resource: Resource },
}

/// A step, as mathematical values.
pub ghost enum SyncActionView {
    Remove { path: Seq<char> },
    Write { path: Seq<char>, resource: ResourceView },
}

impl View for SyncAction {
    type V = SyncActionView;

    open spec fn view(&self) -> SyncActionView {
        match self {
            SyncAction::Remove { path } => SyncActionView::Remove { path: path@ },
            SyncAction::Write { path, resource } => SyncActionView::Write {
                path: path@,
                resource: resource@,
            },
        }
    }
}

/// The steps held by a vector, in the vector's order.
pub open spec fn steps(plan: Seq<SyncAction>) -> Seq<SyncActionView> {
    plan.map_values(|a: SyncAction| a@)
}

/// The extension of a snapshot file's name.
pub open spec fn snapshot_suffix() -> Seq<char> {
    seq!['j', 's', 'o', 'n']
}

/// Where the snapshot of the note `hash` lies below the directory `dir`.
pub open spec fn snapshot_path(dir: Seq<char>, hash: Seq<char>) -> Seq<char> {
    dir + seq!['/'] + hash + seq!['.'] + snapshot_suffix()
}

/// The step that brings the snapshot of one note up to date: a note
/// without tags loses its file, any other note is written out.
pub open spec fn sync_action(dir: Seq<char>, resource: ResourceView) -> SyncActionView {
    if resource.tags == Set::<Seq<char>>::empty() {
        SyncActionView::Remove { path: snapshot_path(dir, resource.hash) }
    } else {
        SyncActionView::Write { path: snapshot_path(dir, resource.hash), resource }
    }
}

/// Whether a file of this name holds a snapshot: its name ends in the
/// snapshot suffix.
pub open spec fn snapshot_name(name: Seq<char>) -> bool {
    name.len() >= 4 && name.skip(name.len() - 4) == snapshot_suffix()
}

/// The path of the snapshot file of the note `hash` below `dir`.
pub fn snapshot_file(dir: &str, hash: &str) -> (path: String)
    ensures
        path@ == snapshot_path(dir@, hash@),
{
    proof {
        reveal_strlit("/");
        reveal_strlit(".json");
    }
    let mut path = String::from_str(dir);
    path.append("/");
    path.append(hash);
    path.append(".json");
    assert(path@ =~= snapshot_path(dir@, hash@));
    path
}

/// The step that brings the snapshot of `resource` up to date.
pub fn plan_sync(dir: &str, resource: &Resource) -> (action: SyncAction)
    ensures
        action@ == sync_action(dir@, resource@),
{
    let path = snapshot_file(dir, resource.hash.as_str());
    if resource.tags.is_empty() {
        SyncAction::Remove { path }
    } else {
        SyncAction::Write { path, resource: resource.clone() }
    }
}

/// Whether the file `name` is to be read as a snapshot.
pub fn is_snapshot_name(name: &str) -> (b: bool)
    ensures
        b == snapshot_name(name@),
{
    let mut last: Vec<char> = Vec::new();
    let ghost whole = name@;
    for c in it: name.chars()
        invariant
            it.seq() == whole,
            it.index() < 4 ==> last@ == whole.take(it.index() as int),
            it.index() >= 4 ==> last@ == whole.subrange(it.index() - 4, it.index() as int),
    {
        let ghost i = it.index() as int;
        if last.len() == 4 {
            last.remove(0);
        }
        last.push(c);
        proof {
            if i < 4 {
                assert(last@ =~= whole.take(i + 1));
                if i + 1 >= 4 {
                    assert(last@ =~= whole.subrange(i + 1 - 4, i + 1));
                }
            } else {
                assert(last@ =~= whole.subrange(i + 1 - 4, i + 1));
            }
        }
    }
    if last.len() != 4 {
        return false;
    }
    proof {
        assert(last@ =~= whole.skip(whole.len() - 4));
    }
    let b = last[0] == 'j' && last[1] == 's' && last[2] == 'o' && last[3] == 'n';
    proof {
        let suffix = snapshot_suffix();
        assert(suffix[0] == 'j' && suffix[1] == 's' && suffix[2] == 'o' && suffix[3] == 'n');
        if b {
            assert(last@ =~= suffix);
        }
    }
    b
}

} // verus!
