//! Sync planning and the reconciliation pass.
//!
//! A sync resolves the remote branch head to a content fingerprint first.
//! When the fingerprint matches the stored one, the pass is rebuilt from the
//! local mirror with no content transfer; otherwise every matching remote
//! entry is fetched and mirrored.  Either way the fetched file contents are
//! run through one reconciliation pass, and the fingerprint is persisted
//! only after every entry has been processed.

use vstd::prelude::*;

use crate::bytes::ends_with;
use crate::errors::LoadError;
use crate::parse::parse_file_spec;
use crate::store::CardStore;

verus! {

/// One entry of the remote tree listing.
pub struct TreeItem {
    /// Path of the entry inside the repository.
    pub path: Vec<u8>,
    /// Content fingerprint of the entry.
    pub sha: Vec<u8>,
    /// Kind of the entry; files are `blob`.
    pub kind: Vec<u8>,
}

/// The bytes of `blob`.
pub open spec fn blob_kind() -> Seq<u8> {
    seq![98u8, 108u8, 111u8, 98u8]
}

/// The bytes of `.typ`.
pub open spec fn typ_suffix() -> Seq<u8> {
    seq![46u8, 116u8, 121u8, 112u8]
}

/// What a sync does after the fingerprint comparison: rebuild from the
/// local mirror without fetching content, or refresh everything.
pub enum SyncPlan {
    UseLocalMirror,
    FullRefresh,
}

/// Decide the sync strategy from the stored and the freshly resolved
/// fingerprint.  Content is fetched only when they differ.
pub fn plan_sync(stored: &Vec<u8>, remote: &Vec<u8>) -> (r: SyncPlan)
    ensures
        r is UseLocalMirror <==> stored@ == remote@,
        r is FullRefresh <==> stored@ != remote@,
{
    if crate::bytes::bytes_eq(stored, remote) {
        SyncPlan::UseLocalMirror
    } else {
        SyncPlan::FullRefresh
    }
}

/// Whether a remote tree entry takes part in a sync: only file entries
/// with the card-file extension do.
pub fn wants_entry(item: &TreeItem) -> (r: bool)
    ensures
        r <==> item.kind@ == blob_kind() && ends_with(item.path@, typ_suffix()),
{
    let mut blob: Vec<u8> = Vec::new();
    blob.push(98);
    blob.push(108);
    blob.push(111);
    blob.push(98);
    proof {
        assert(blob@ =~= blob_kind());
    }
    let mut suffix: Vec<u8> = Vec::new();
    suffix.push(46);
    suffix.push(116);
    suffix.push(121);
    suffix.push(112);
    proof {
        assert(suffix@ =~= typ_suffix());
    }
    let k = crate::bytes::bytes_eq(&item.kind, &blob);
    if !k {
        return false;
    }
    crate::bytes::check_ends_with(&item.path, &suffix)
}

/// Parsing this file content succeeds and yields a record with the id.
pub open spec fn file_yields(content: Seq<u8>, id: Seq<u8>) -> bool {
    parse_file_spec(content) is Some && CardStore::file_has_id(
        parse_file_spec(content)->Some_0.cards,
        id,
    )
}

/// Some file of the pass yields a record with the id.
pub open spec fn observed(files: Seq<(String, Vec<u8>)>, id: Seq<u8>) -> bool {
    exists|i: int| 0 <= i < files.len() && file_yields((#[trigger] files[i]).1@, id)
}

/// Total number of content bytes in the pass.
pub open spec fn total_content_len(files: Seq<(String, Vec<u8>)>) -> int
    decreases files.len(),
{
    if files.len() == 0 {
        0
    } else {
        total_content_len(files.drop_last()) + files.last().1@.len()
    }
}

proof fn lemma_total_step(files: Seq<(String, Vec<u8>)>, k: int)
    requires
        0 <= k < files.len(),
    ensures
        total_content_len(files.take(k + 1)) == total_content_len(files.take(k)) + files[k].1@.len(),
{
    assert(files.take(k + 1).drop_last() =~= files.take(k));
    assert(files.take(k + 1).last() == files[k]);
}

proof fn lemma_total_nonneg(files: Seq<(String, Vec<u8>)>)
    ensures
        total_content_len(files) >= 0,
    decreases files.len(),
{
    if files.len() > 0 {
        lemma_total_nonneg(files.drop_last());
    }
}

proof fn lemma_total_take_le(files: Seq<(String, Vec<u8>)>, k: int)
    requires
        0 <= k <= files.len(),
    ensures
        total_content_len(files.take(k)) <= total_content_len(files),
    decreases files.len() - k,
{
    if k == files.len() {
        assert(files.take(k) =~= files);
    } else {
        lemma_total_step(files, k);
        lemma_total_take_le(files, k + 1);
        assert(files[k].1@.len() >= 0);
    }
}

proof fn lemma_observed_step(files: Seq<(String, Vec<u8>)>, k: int, id: Seq<u8>)
    requires
        0 <= k < files.len(),
    ensures
        observed(files.take(k + 1), id) <==> (observed(files.take(k), id) || file_yields(
            files[k].1@,
            id,
        )),
{
    if observed(files.take(k + 1), id) {
        let i = choose|i: int|
            0 <= i < files.take(k + 1).len() && file_yields((#[trigger] files.take(k + 1)[i]).1@, id);
        if i < k {
            assert(files.take(k)[i] == files[i]);
            assert(observed(files.take(k), id));
        } else {
            assert(files.take(k + 1)[i] == files[k]);
        }
    }
    if observed(files.take(k), id) {
        let i = choose|i: int|
            0 <= i < files.take(k).len() && file_yields((#[trigger] files.take(k)[i]).1@, id);
        assert(files.take(k + 1)[i] == files[i]);
        assert(observed(files.take(k + 1), id));
    }
    if file_yields(files[k].1@, id) {
        assert(files.take(k + 1)[k] == files[k]);
        assert(observed(files.take(k + 1), id));
    }
}

/// Reconciliation is precise and idempotent: a pass leaves exactly the
/// ids its files yield, so any two stores that went through a pass over
/// the same files hold the same card ids, whatever they held before.
pub proof fn lemma_pass_idempotent(
    a: CardStore,
    b: CardStore,
    files: Seq<(String, Vec<u8>)>,
)
    requires
        forall|id: Seq<u8>| #[trigger] a.has_id(id) <==> observed(files, id),
        forall|id: Seq<u8>| #[trigger] b.has_id(id) <==> observed(files, id),
    ensures
        forall|id: Seq<u8>| #[trigger] a.has_id(id) <==> b.has_id(id),
{
}

/// Everything the reconciliation loop maintains after `k` files.
pub open spec fn pass_inv(
    orig: CardStore,
    cur: CardStore,
    files: Seq<(String, Vec<u8>)>,
    k: int,
) -> bool {
    &&& cur.wf()
    &&& cur.cards@.len() <= orig.cards@.len() + total_content_len(files.take(k))
    &&& orig.next_header_token <= cur.next_header_token <= orig.next_header_token + k
    &&& cur.sha@ == orig.sha@
    &&& cur.tags@.len() >= orig.tags@.len()
    &&& forall|t: int|
        0 <= t < orig.tags@.len() ==> (#[trigger] cur.tags@[t]).full_path@ == orig.tags@[
        t].full_path@
    &&& forall|id: Seq<u8>| #[trigger]
        cur.has_id(id) <==> orig.has_id(id) || observed(files.take(k), id)
    &&& forall|id: Seq<u8>| #[trigger]
        cur.pending_has(id) <==> orig.has_id(id) && !observed(files.take(k), id)
}

/// A successful load of file `k` carries the loop facts one step forward.
proof fn lemma_pass_step_ok(
    orig: CardStore,
    pre: CardStore,
    post: CardStore,
    files: Seq<(String, Vec<u8>)>,
    k: int,
)
    requires
        pass_inv(orig, pre, files, k),
        0 <= k < files.len(),
        parse_file_spec(files[k].1@) is Some,
        CardStore::load_post(pre, post, parse_file_spec(files[k].1@)->Some_0),
        post.cards@.len() <= pre.cards@.len() + files[k].1@.len(),
    ensures
        pass_inv(orig, post, files, k + 1),
{
    let f = parse_file_spec(files[k].1@)->Some_0;
    lemma_total_step(files, k);
    assert(post.cards@.len() <= orig.cards@.len() + total_content_len(files.take(k + 1)));
    assert forall|t: int|
        0 <= t < orig.tags@.len() implies (#[trigger] post.tags@[t]).full_path@ == orig.tags@[
    t].full_path@ by {
        assert(pre.tags@[t].full_path@ == orig.tags@[t].full_path@);
        assert(t < pre.tags@.len());
    }
    assert forall|id: Seq<u8>| #[trigger]
        post.has_id(id) <==> orig.has_id(id) || observed(files.take(k + 1), id) by {
        lemma_observed_step(files, k, id);
        if post.has_id(id) {
            let j = choose|j: int| post.live(j) && (#[trigger] post.card_at(j)).id@ == id;
            if pre.live(j) {
                assert(pre.card_at(j).id@ == id);
                assert(pre.has_id(id));
            } else {
                assert(CardStore::file_has_id(f.cards, id));
                assert(file_yields(files[k].1@, id));
            }
        }
        if pre.has_id(id) {
            let j = choose|j: int| pre.live(j) && (#[trigger] pre.card_at(j)).id@ == id;
            assert(post.live(j));
            assert(post.card_at(j).id@ == id);
            assert(post.has_id(id));
        }
        if CardStore::file_has_id(f.cards, id) {
            let x = choose|x: int| 0 <= x < f.cards.len() && (#[trigger] f.cards[x]).id == id;
            assert(post.has_id(f.cards[x].id));
        }
    }
    assert forall|id: Seq<u8>| #[trigger]
        post.pending_has(id) <==> orig.has_id(id) && !observed(files.take(k + 1), id) by {
        lemma_observed_step(files, k, id);
        assert(post.pending_has(id) <==> pre.pending_has(id) && !CardStore::file_has_id(
            f.cards,
            id,
        ));
    }
}

/// A failed parse of file `k`, with its error collected, carries the loop
/// facts one step forward; the store is untouched.
proof fn lemma_pass_step_err(
    orig: CardStore,
    cur: CardStore,
    files: Seq<(String, Vec<u8>)>,
    k: int,
)
    requires
        pass_inv(orig, cur, files, k),
        0 <= k < files.len(),
        parse_file_spec(files[k].1@) is None,
    ensures
        pass_inv(orig, cur, files, k + 1),
{
    lemma_total_step(files, k);
    assert forall|id: Seq<u8>| #[trigger]
        cur.has_id(id) <==> orig.has_id(id) || observed(files.take(k + 1), id) by {
        lemma_observed_step(files, k, id);
        assert(!file_yields(files[k].1@, id));
    }
    assert forall|id: Seq<u8>| #[trigger]
        cur.pending_has(id) <==> orig.has_id(id) && !observed(files.take(k + 1), id) by {
        lemma_observed_step(files, k, id);
        assert(!file_yields(files[k].1@, id));
    }
}

/// The marked store starts the loop facts at step zero.
proof fn lemma_pass_init(
    orig: CardStore,
    marked: CardStore,
    files: Seq<(String, Vec<u8>)>,
)
    requires
        orig.wf(),
        marked.wf(),
        marked.tags@ == orig.tags@,
        marked.cards@ == orig.cards@,
        marked.sha@ == orig.sha@,
        marked.next_header_token == orig.next_header_token,
        forall|id: Seq<u8>| #[trigger] marked.pending_has(id) <==> orig.has_id(id),
    ensures
        pass_inv(orig, marked, files, 0),
{
    assert(files.take(0) =~= Seq::<(String, Vec<u8>)>::empty());
    assert(total_content_len(files.take(0)) == 0);
    assert forall|id: Seq<u8>| #[trigger]
        marked.has_id(id) <==> orig.has_id(id) || observed(files.take(0), id) by {
        if marked.has_id(id) {
            let j = choose|j: int| marked.live(j) && (#[trigger] marked.card_at(j)).id@ == id;
            assert(orig.live(j) && orig.card_at(j).id@ == id);
        }
        if orig.has_id(id) {
            let j = choose|j: int| orig.live(j) && (#[trigger] orig.card_at(j)).id@ == id;
            assert(marked.live(j) && marked.card_at(j).id@ == id);
        }
        if observed(files.take(0), id) {
            let i = choose|i: int|
                0 <= i < files.take(0).len() && file_yields((#[trigger] files.take(0)[i]).1@, id);
        }
    }
    assert forall|id: Seq<u8>| #[trigger]
        marked.pending_has(id) <==> orig.has_id(id) && !observed(files.take(0), id) by {
        if observed(files.take(0), id) {
            let i = choose|i: int|
                0 <= i < files.take(0).len() && file_yields((#[trigger] files.take(0)[i]).1@, id);
        }
    }
}

/// After the whole pass, the store holds exactly the observed ids.
proof fn lemma_pass_finish(
    orig: CardStore,
    loaded: CardStore,
    done: CardStore,
    files: Seq<(String, Vec<u8>)>,
)
    requires
        forall|id: Seq<u8>| #[trigger]
            loaded.has_id(id) <==> orig.has_id(id) || observed(files, id),
        forall|id: Seq<u8>| #[trigger]
            loaded.pending_has(id) <==> orig.has_id(id) && !observed(files, id),
        forall|j: int| #[trigger]
            done.live(j) <==> loaded.live(j) && !loaded.pending_has(loaded.card_at(j).id@),
        forall|j: int| done.live(j) ==> done.card_at(j) == loaded.card_at(j),
    ensures
        forall|id: Seq<u8>| #[trigger] done.has_id(id) <==> observed(files, id),
{
    assert forall|id: Seq<u8>| #[trigger] done.has_id(id) <==> observed(files, id) by {
        if done.has_id(id) {
            let j = choose|j: int| done.live(j) && (#[trigger] done.card_at(j)).id@ == id;
            assert(loaded.live(j));
            assert(done.card_at(j) == loaded.card_at(j));
            assert(!loaded.pending_has(loaded.card_at(j).id@));
            assert(loaded.has_id(id));
            if !observed(files, id) {
                assert(orig.has_id(id));
                assert(loaded.pending_has(id));
                assert(false);
            }
        }
        if observed(files, id) {
            assert(loaded.has_id(id));
            let j = choose|j: int| loaded.live(j) && (#[trigger] loaded.card_at(j)).id@ == id;
            assert(!loaded.pending_has(loaded.card_at(j).id@));
            assert(done.live(j));
            assert(done.card_at(j) == loaded.card_at(j));
            assert(done.has_id(id));
        }
    }
}

/// Every collected error names a file of the pass whose parse failed.
pub open spec fn errors_sound(files: Seq<(String, Vec<u8>)>, errors: Seq<LoadError>) -> bool {
    forall|x: int|
        0 <= x < errors.len() ==> names_failed_file(files, (#[trigger] errors[x]).path@)
}

/// The path names some file of the pass whose parse failed.
pub open spec fn names_failed_file(files: Seq<(String, Vec<u8>)>, path: Seq<char>) -> bool {
    exists|i: int|
        0 <= i < files.len() && parse_file_spec((#[trigger] files[i]).1@) is None && path == files[
        i].0@
}

/// Every file of the pass whose parse failed has a collected error.
pub open spec fn errors_complete(files: Seq<(String, Vec<u8>)>, errors: Seq<LoadError>) -> bool {
    forall|i: int|
        0 <= i < files.len() && parse_file_spec((#[trigger] files[i]).1@) is None
            ==> some_error_names(errors, files[i].0@)
}

/// Some collected error carries the path.
pub open spec fn some_error_names(errors: Seq<LoadError>, path: Seq<char>) -> bool {
    exists|x: int| 0 <= x < errors.len() && (#[trigger] errors[x]).path@ == path
}

/// A positional account of the collected errors gives both directions of
/// the error contract.
proof fn lemma_errors_from_positions(
    files: Seq<(String, Vec<u8>)>,
    errors: Seq<LoadError>,
    fail_idx: Seq<int>,
)
    requires
        errors.len() == fail_idx.len(),
        forall|x: int|
            0 <= x < fail_idx.len() ==> 0 <= #[trigger] fail_idx[x] < files.len()
                && parse_file_spec(files[fail_idx[x]].1@) is None && errors[x].path@ == files[
            fail_idx[x]].0@,
        forall|i: int|
            0 <= i < files.len() && parse_file_spec((#[trigger] files[i]).1@) is None
                ==> fail_idx.contains(i),
    ensures
        errors_sound(files, errors),
        errors_complete(files, errors),
{
    assert forall|x: int| 0 <= x < errors.len() implies names_failed_file(
        files,
        (#[trigger] errors[x]).path@,
    ) by {
        let i = fail_idx[x];
        assert(0 <= i < files.len() && parse_file_spec(files[i].1@) is None && errors[x].path@
            == files[i].0@);
    }
    assert forall|i: int|
        0 <= i < files.len() && parse_file_spec((#[trigger] files[i]).1@)
            is None implies some_error_names(errors, files[i].0@) by {
        assert(fail_idx.contains(i));
        let x = choose|x: int| 0 <= x < fail_idx.len() && fail_idx[x] == i;
        assert(errors[x].path@ == files[i].0@);
    }
}

/// Run one full reconciliation pass over the given file contents, then
/// persist the resolved fingerprint.
///
/// Every currently known card is marked for removal, each file is parsed
/// and loaded (a parse failure is collected per file and skips only that
/// file), the cards whose ids were not re-observed are collected, and only
/// then is the fingerprint stored.  Afterwards the store holds exactly the
/// cards the given files yield.
pub fn sync_pass(
    store: &mut CardStore,
    files: &Vec<(String, Vec<u8>)>,
    remote_sha: &Vec<u8>,
) -> (errors: Vec<LoadError>)
    requires
        old(store).wf(),
        forall|k: int|
            0 <= k < files@.len() ==> (#[trigger] files@[k]).1@.len() < usize::MAX - 8,
        old(store).cards@.len() + total_content_len(files@) < usize::MAX - 1,
        old(store).next_header_token + files@.len() <= u64::MAX,
    ensures
        final(store).wf(),
        forall|id: Seq<u8>| #[trigger] final(store).has_id(id) <==> observed(files@, id),
        final(store).sha@ == remote_sha@,
        final(store).pending_removal@.len() == 0,
        final(store).tags@.len() >= old(store).tags@.len(),
        forall|t: int|
            0 <= t < old(store).tags@.len() ==> (#[trigger] final(store).tags@[t]).full_path@
                == old(store).tags@[t].full_path@,
        errors_sound(files@, errors@),
        errors_complete(files@, errors@),
{
    store.mark_cards_for_garbage_collection();
    proof {
        lemma_pass_init(*old(store), *store, files@);
    }
    let mut errors: Vec<LoadError> = Vec::new();
    let ghost mut fail_idx: Seq<int> = Seq::empty();
    let n = files.len();
    let mut k: usize = 0;
    while k < n
        invariant
            n == files@.len(),
            k <= n,
            forall|k2: int|
                0 <= k2 < files@.len() ==> (#[trigger] files@[k2]).1@.len() < usize::MAX - 8,
            old(store).cards@.len() + total_content_len(files@) < usize::MAX - 1,
            old(store).next_header_token + files@.len() <= u64::MAX,
            pass_inv(*old(store), *store, files@, k as int),
            errors@.len() == fail_idx.len(),
            forall|x: int|
                0 <= x < fail_idx.len() ==> 0 <= #[trigger] fail_idx[x] < k && parse_file_spec(
                    files@[fail_idx[x]].1@,
                ) is None && errors@[x].path@ == files@[fail_idx[x]].0@,
            forall|i: int|
                0 <= i < k && parse_file_spec((#[trigger] files@[i]).1@) is None
                    ==> fail_idx.contains(i),
        decreases n - k,
    {
        let ghost pre = *store;
        proof {
            lemma_total_step(files@, k as int);
            lemma_total_take_le(files@, k + 1);
            lemma_total_nonneg(files@.take(k as int));
        }
        let outcome = store.load(&files[k].1);
        match outcome {
            Ok(_) => {
                proof {
                    lemma_pass_step_ok(*old(store), pre, *store, files@, k as int);
                }
            },
            Err(e) => {
                let err = LoadError::new(e.details().clone(), files[k].0.clone());
                let ghost preerr = errors@;
                let ghost prefail = fail_idx;
                errors.push(err);
                proof {
                    lemma_pass_step_err(*old(store), *store, files@, k as int);
                    fail_idx = fail_idx.push(k as int);
                    assert forall|x: int|
                        0 <= x < fail_idx.len() implies 0 <= #[trigger] fail_idx[x] < k + 1
                        && parse_file_spec(files@[fail_idx[x]].1@) is None && errors@[x].path@
                        == files@[fail_idx[x]].0@ by {
                        if x < prefail.len() {
                            assert(fail_idx[x] == prefail[x]);
                            assert(errors@[x] == preerr[x]);
                        } else {
                            assert(fail_idx[x] == k as int);
                            assert(errors@[x].path@ == files@[k as int].0@);
                        }
                    }
                    assert forall|i: int|
                        0 <= i < k + 1 && parse_file_spec((#[trigger] files@[i]).1@)
                            is None implies fail_idx.contains(i) by {
                        if i < k {
                            assert(prefail.contains(i));
                            let x = choose|x: int| 0 <= x < prefail.len() && prefail[x] == i;
                            assert(fail_idx[x] == i);
                        } else {
                            assert(fail_idx[fail_idx.len() - 1] == i);
                        }
                    }
                }
            },
        }
        k += 1;
    }
    proof {
        assert(files@.take(n as int) =~= files@);
    }
    let ghost loaded = *store;
    store.collect_garbage();
    proof {
        lemma_pass_finish(*old(store), loaded, *store, files@);
    }
    let ghost done = *store;
    store.sha = remote_sha.clone();
    proof {
        CardStore::lemma_wf_frame(done, *store);
        assert forall|id: Seq<u8>| #[trigger] store.has_id(id) <==> observed(files@, id) by {
            assert(store.has_id(id) == done.has_id(id)) by {
                if store.has_id(id) {
                    let j = choose|j: int|
                        store.live(j) && (#[trigger] store.card_at(j)).id@ == id;
                    assert(done.live(j) && done.card_at(j).id@ == id);
                }
                if done.has_id(id) {
                    let j = choose|j: int|
                        done.live(j) && (#[trigger] done.card_at(j)).id@ == id;
                    assert(store.live(j) && store.card_at(j).id@ == id);
                }
            }
        }
    }
    proof {
        lemma_errors_from_positions(files@, errors@, fail_idx);
    }
    errors
}

} // verus!
