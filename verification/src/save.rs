//! Save slot manager: owns the slot table (slot id to relative file path),
//! the persisted last-saved pointer and the transient current-save pointer,
//! and decides, request by request, how they change.  File reads, writes and
//! removals belong to the host: each decision here either consumes the
//! outcome of such an operation or hands a fully prepared write job back to
//! the host, which performs it off the decision loop, fire and forget.

use vstd::prelude::*;
use crate::codec::{SaveError, decrypt_of, encode_save, decode_save, encryptable};

verus! {

/// Request: write the application state to slot `id`; `0` asks for a fresh
/// slot.
#[derive(Debug)]
pub struct SaveGame(pub u32);

/// Request: remove a slot's file and, with it, its table entry.
#[derive(Debug)]
pub struct DeleteSave(pub u32);

/// Request: read a slot's file back into the application state.
#[derive(Debug)]
pub struct LoadGame(pub u32);

/// Request: load whichever slot the last successful save went to.
#[derive(Debug)]
pub struct LoadRecent;

/// Transient pointer to the slot most recently loaded or saved with success;
/// `0` means no active save.  Never persisted.
#[derive(Debug)]
pub struct CurrentSave(pub u32);

impl CurrentSave {
    /// A fresh pointer designates no active save.
    pub fn new() -> (r: CurrentSave)
        ensures
            r.0 == 0,
    {
        CurrentSave(0)
    }
}

/// One slot table entry: a positive slot id and the file path, relative to
/// the save directory, that the slot's data lives under.
#[derive(Debug)]
pub struct SlotEntry {
    pub id: u32,
    pub path: Vec<u8>,
}

/// A fully prepared durable write: the host creates the parent directories
/// of `path` and writes `contents` there, off the decision loop.  A write
/// failure is reported out of band and never fed back into the table.
#[derive(Debug)]
pub struct WriteJob {
    pub path: Vec<u8>,
    pub contents: Vec<u8>,
}

/// What a successful save decision hands back to the host.
#[derive(Debug)]
pub struct SaveOutcome {
    /// The slot the save went to (freshly allocated for `SaveGame(0)`).
    pub slot_id: u32,
    /// The write that makes the save durable.
    pub job: WriteJob,
    /// Whether the slot table itself changed, so that the settings record
    /// must be flushed; re-saving an existing slot changes only the file.
    pub settings_changed: bool,
}

/// Slot ids strictly ascending: each id occurs once and the last entry
/// carries the maximum.
pub open spec fn sorted_ids(s: Seq<SlotEntry>) -> bool {
    forall|i: int, j: int| 0 <= i < j < s.len() ==> s[i].id < s[j].id
}

/// Valid slot ids start at 1; id 0 is reserved for "no slot".
pub open spec fn positive_ids(s: Seq<SlotEntry>) -> bool {
    forall|i: int| 0 <= i < s.len() ==> s[i].id >= 1
}

/// No id occurs twice.
pub open spec fn distinct_ids(s: Seq<SlotEntry>) -> bool {
    forall|i: int, j: int| 0 <= i < j < s.len() ==> s[i].id != s[j].id
}

/// Whether some entry of `s` carries the id.
pub open spec fn has_slot_id(s: Seq<SlotEntry>, id: u32) -> bool {
    exists|i: int| 0 <= i < s.len() && s[i].id == id
}

/// The position of `id` in `s`: meaningful when `has_slot_id(s, id)` holds
/// and ids are distinct, which makes the witness unique.
pub open spec fn slot_index(s: Seq<SlotEntry>, id: u32) -> int {
    choose|i: int| 0 <= i < s.len() && s[i].id == id
}

/// The stored (relative) path of slot `id`.
pub open spec fn slot_path(s: Seq<SlotEntry>, id: u32) -> Seq<u8> {
    s[slot_index(s, id)].path@
}

/// What parsed settings data must satisfy to be adopted as a slot table:
/// every id positive and no id repeated.  A record this library wrote always
/// satisfies it.
pub open spec fn valid_entries(s: Seq<SlotEntry>) -> bool {
    positive_ids(s) && distinct_ids(s)
}

/// The id a fresh slot is allocated: one past the maximum id in the table,
/// or 1 for an empty table.
pub open spec fn next_slot_id(s: Seq<SlotEntry>) -> int {
    if s.len() == 0 {
        1
    } else {
        s.last().id + 1
    }
}

/// With pairwise-distinct ids, every position holding `id` is the position
/// `slot_index` picks.
pub proof fn lemma_distinct_index(s: Seq<SlotEntry>, id: u32, i: int)
    requires
        distinct_ids(s),
        0 <= i < s.len(),
        s[i].id == id,
    ensures
        has_slot_id(s, id),
        slot_index(s, id) == i,
        slot_path(s, id) == s[i].path@,
{
    assert(has_slot_id(s, id));
    let j = slot_index(s, id);
    assert(0 <= j < s.len() && s[j].id == id);
}

/// Sorted ids are pairwise distinct.
pub proof fn lemma_sorted_distinct(s: Seq<SlotEntry>)
    requires
        sorted_ids(s),
    ensures
        distinct_ids(s),
{
}

/// Fresh slot ids: every id in a sorted table is strictly below the id the
/// next `SaveGame(0)` would allocate, so that id was never used before.
pub proof fn lemma_fresh_slot_id(s: Seq<SlotEntry>)
    requires
        sorted_ids(s),
    ensures
        forall|i: int| 0 <= i < s.len() ==> s[i].id < next_slot_id(s),
        forall|id: u32| has_slot_id(s, id) ==> id < next_slot_id(s),
        forall|id: u32| id >= next_slot_id(s) ==> !has_slot_id(s, id),
{
    assert forall|i: int| 0 <= i < s.len() implies s[i].id < next_slot_id(s) by {
        if i < s.len() - 1 {
            assert(s[i].id < s[s.len() - 1].id);
        }
    }
}

/// One fresh save extends a sorted table by the allocated id: the result is
/// sorted again and its own next id is one higher.
proof fn lemma_save_step(s: Seq<SlotEntry>, s2: Seq<SlotEntry>)
    requires
        sorted_ids(s),
        next_slot_id(s) <= u32::MAX,
        s2.len() == s.len() + 1,
        s2.subrange(0, s.len() as int) == s,
        s2.last().id == next_slot_id(s),
    ensures
        sorted_ids(s2),
        next_slot_id(s2) == next_slot_id(s) + 1,
{
    lemma_fresh_slot_id(s);
    assert forall|i: int, j: int| 0 <= i < j < s2.len() implies s2[i].id < s2[j].id by {
        assert(s2[i] == s[i]);
        if j < s.len() {
            assert(s2[j] == s[j]);
        } else {
            assert(s2[j].id == next_slot_id(s));
            assert(s[i].id < next_slot_id(s));
        }
    }
}

/// The `k`th link of a chain of tables produced by fresh saves: the next
/// table extends this one by a single entry carrying the id `next_slot_id`
/// allocates — exactly what a successful `SaveGame(0)` ensures.
pub open spec fn save_chain_step(states: Seq<Seq<SlotEntry>>, k: int) -> bool {
    &&& next_slot_id(states[k]) <= u32::MAX
    &&& states[k + 1].len() == states[k].len() + 1
    &&& states[k + 1].subrange(0, states[k].len() as int) == states[k]
    &&& states[k + 1].last().id == next_slot_id(states[k])
}

/// The law for a whole run of fresh saves, stated over the chain of tables
/// it produces.  `states[0]` is any well-formed starting table (empty on a
/// first run) and each later table follows by one fresh save.  Then every
/// table in the chain is well-formed, the table after `k` saves holds
/// exactly `k` more entries than the first (its key set, having no
/// duplicates, has grown by `k`), the allocated ids grow strictly along the
/// chain, and no allocated id occurs in any table before its allocation.
pub proof fn lemma_save_sequence(states: Seq<Seq<SlotEntry>>)
    requires
        states.len() >= 1,
        sorted_ids(states[0]),
        forall|k: int| 0 <= k < states.len() - 1 ==> #[trigger] save_chain_step(states, k),
    ensures
        forall|k: int| 0 <= k < states.len() ==> sorted_ids(#[trigger] states[k]),
        forall|k: int|
            0 <= k < states.len() ==> (#[trigger] states[k]).len() == states[0].len() + k,
        forall|k: int|
            0 <= k < states.len() ==> next_slot_id(#[trigger] states[k]) == next_slot_id(
                states[0],
            ) + k,
        forall|j: int, k: int|
            0 <= j < k < states.len() - 1 ==> next_slot_id(#[trigger] states[j]) < next_slot_id(
                #[trigger] states[k],
            ),
        forall|j: int, k: int|
            0 <= j <= k < states.len() - 1 ==> !has_slot_id(
                #[trigger] states[j],
                next_slot_id(#[trigger] states[k]) as u32,
            ),
    decreases states.len(),
{
    let n = states.len() as int;
    if n > 1 {
        let prefix = states.subrange(0, n - 1);
        assert forall|k: int| 0 <= k < prefix.len() - 1 implies #[trigger] save_chain_step(
            prefix,
            k,
        ) by {
            assert(save_chain_step(states, k));
            assert(prefix[k] == states[k]);
            assert(prefix[k + 1] == states[k + 1]);
        }
        assert(prefix[0] == states[0]);
        lemma_save_sequence(prefix);
        // the prefix's conclusions, restated over `states`
        assert forall|k: int| 0 <= k < n - 1 implies sorted_ids(#[trigger] states[k])
            && states[k].len() == states[0].len() + k && next_slot_id(states[k]) == next_slot_id(
            states[0],
        ) + k by {
            assert(states[k] == prefix[k]);
        }
        // the final step keeps the table sorted: the fresh id sits above
        // every id already present
        let m = n - 2;
        let last_tbl = states[n - 1];
        assert(save_chain_step(states, m));
        lemma_save_step(states[m], last_tbl);
        assert(sorted_ids(last_tbl));
        assert(last_tbl.len() == states[0].len() + (n - 1));
        assert(next_slot_id(last_tbl) == next_slot_id(states[0]) + (n - 1));
        // freshness follows from the id offsets: every id of an earlier
        // table lies strictly below its own table's next id
        assert forall|j: int, k: int| 0 <= j <= k < n - 1 implies !has_slot_id(
            #[trigger] states[j],
            next_slot_id(#[trigger] states[k]) as u32,
        ) by {
            lemma_fresh_slot_id(states[j]);
            assert(next_slot_id(states[j]) <= next_slot_id(states[k]));
        }
    }
}

/// `dir` joined with `name`: the bytes of `dir`, a `/`, and the bytes of
/// `name`; just `name` when `dir` is empty.
pub open spec fn join_spec(dir: Seq<u8>, name: Seq<u8>) -> Seq<u8> {
    if dir.len() == 0 {
        name
    } else {
        dir + seq![47u8] + name
    }
}

/// Resolves a file name against a base directory.
pub fn join_path(dir: &Vec<u8>, name: &Vec<u8>) -> (r: Vec<u8>)
    ensures
        r@ == join_spec(dir@, name@),
{
    let mut r = vstd::slice::slice_to_vec(dir.as_slice());
    if r.len() > 0 {
        r.push(47u8);
    }
    let mut tail = vstd::slice::slice_to_vec(name.as_slice());
    r.append(&mut tail);
    proof {
        assert(r@ =~= join_spec(dir@, name@));
    }
    r
}

/// Bytes drawn for generated file names: ASCII letters and digits.
pub open spec fn is_token_byte(b: u8) -> bool {
    (65 <= b <= 90) || (97 <= b <= 122) || (48 <= b <= 57)
}

/// Shape of a generated save file name: twelve alphanumeric bytes and the
/// `.dat` suffix.
pub open spec fn generated_name(name: Seq<u8>) -> bool {
    &&& name.len() == 16
    &&& (forall|i: int| 0 <= i < 12 ==> is_token_byte(#[trigger] name[i]))
    &&& name[12] == 46u8
    &&& name[13] == 100u8
    &&& name[14] == 97u8
    &&& name[15] == 116u8
}

/// Relies on `fastrand::usize` over the range `0..n`: an index drawn
/// strictly below `n` (the range must not be empty).
#[verifier::external_body]
fn rand_below(n: usize) -> (r: usize)
    requires
        1 <= n,
    ensures
        r < n,
{
    fastrand::usize(0..n)
}

/// The `i`th byte of the generation alphabet `A`..`Z`, `a`..`z`, `0`..`9`.
fn charset_byte(i: usize) -> (b: u8)
    requires
        i < 62,
    ensures
        is_token_byte(b),
{
    if i < 26 {
        65 + (i as u8)
    } else if i < 52 {
        97 + (i as u8 - 26)
    } else {
        48 + (i as u8 - 52)
    }
}

/// A fresh 12-character alphanumeric token for a new save file's name.
pub fn random_string() -> (r: Vec<u8>)
    ensures
        r@.len() == 12,
        forall|i: int| 0 <= i < r@.len() ==> is_token_byte(#[trigger] r@[i]),
{
    let mut r: Vec<u8> = Vec::new();
    let mut k: usize = 0;
    while k < 12
        invariant
            r@.len() == k,
            k <= 12,
            forall|i: int| 0 <= i < r@.len() ==> is_token_byte(#[trigger] r@[i]),
        decreases 12 - k,
    {
        let idx = rand_below(62);
        r.push(charset_byte(idx));
        k += 1;
    }
    r
}

/// A fresh `<token>.dat` file name for a newly allocated slot.
fn fresh_file_name() -> (r: Vec<u8>)
    ensures
        generated_name(r@),
{
    let mut r = random_string();
    r.push(46u8);
    r.push(100u8);
    r.push(97u8);
    r.push(116u8);
    r
}

/// One step of rebuilding a table from parsed entries: inserting an entry
/// with a fresh positive id at its sorted position keeps the table
/// well-formed and keeps it in step, id for id and path for path, with the
/// entries consumed so far.
proof fn lemma_table_insert(
    s: Seq<SlotEntry>,
    s2: Seq<SlotEntry>,
    proc_old: Seq<SlotEntry>,
    proc_new: Seq<SlotEntry>,
    e: SlotEntry,
    k: int,
)
    requires
        sorted_ids(s),
        positive_ids(s),
        0 <= k <= s.len(),
        forall|p: int| 0 <= p < k ==> (#[trigger] s[p].id) < e.id,
        forall|p: int| k <= p < s.len() ==> (#[trigger] s[p].id) >= e.id,
        k < s.len() ==> s[k].id != e.id,
        e.id >= 1,
        s2 == s.insert(k, e),
        proc_new.len() == proc_old.len() + 1,
        proc_new[0] == e,
        forall|p: int| 0 <= p < proc_old.len() ==> proc_new[p + 1] == (#[trigger] proc_old[p]),
        distinct_ids(proc_old),
        forall|id: u32| has_slot_id(s, id) <==> has_slot_id(proc_old, id),
        forall|id: u32|
            has_slot_id(s, id) ==> slot_path(s, id) == slot_path(proc_old, id),
    ensures
        sorted_ids(s2),
        positive_ids(s2),
        s2.len() == s.len() + 1,
        distinct_ids(proc_new),
        forall|id: u32| has_slot_id(s2, id) <==> has_slot_id(proc_new, id),
        forall|id: u32|
            has_slot_id(s2, id) ==> slot_path(s2, id) == slot_path(proc_new, id),
{
    s.insert_ensures(k, e);
    assert forall|p: int| k <= p < s.len() implies (#[trigger] s[p].id) > e.id by {
        if p > k {
            assert(s[k].id < s[p].id);
        }
    }
    assert(!has_slot_id(s, e.id)) by {
        if has_slot_id(s, e.id) {
            let w = choose|w: int| 0 <= w < s.len() && s[w].id == e.id;
            assert(w < k ==> s[w].id < e.id);
            assert(w >= k ==> s[w].id > e.id);
        }
    }
    assert forall|i: int, j: int| 0 <= i < j < s2.len() implies s2[i].id < s2[j].id by {
        if i < k && j < k {
        } else if i < k && j == k {
            assert(s2[i] == s[i]);
        } else if i < k && j > k {
            assert(s2[i] == s[i] && s2[j] == s[j - 1]);
        } else if i == k {
            assert(s2[j] == s[j - 1]);
        } else {
            assert(s2[i] == s[i - 1] && s2[j] == s[j - 1]);
        }
    }
    assert forall|p: int| 0 <= p < s2.len() implies s2[p].id >= 1 by {
        if p < k {
            assert(s2[p] == s[p]);
        } else if p > k {
            assert(s2[p] == s[p - 1]);
        }
    }
    lemma_sorted_distinct(s2);
    assert forall|p: int, q: int| 0 <= p < q < proc_new.len() implies proc_new[p].id
        != proc_new[q].id by {
        if p == 0 {
            assert(proc_new[q] == proc_old[q - 1]);
            if proc_new[0].id == proc_old[q - 1].id {
                assert(has_slot_id(proc_old, e.id));
                assert(has_slot_id(s, e.id));
            }
        } else {
            assert(proc_new[p] == proc_old[p - 1]);
            assert(proc_new[q] == proc_old[q - 1]);
        }
    }
    assert forall|id: u32| has_slot_id(s2, id) implies has_slot_id(proc_new, id) by {
        let w = choose|w: int| 0 <= w < s2.len() && s2[w].id == id;
        if w == k {
        } else {
            let w1: int = if w < k {
                w
            } else {
                w - 1
            };
            assert(s2[w] == s[w1]);
            assert(has_slot_id(s, id));
            let wp = choose|v: int| 0 <= v < proc_old.len() && proc_old[v].id == id;
            assert(proc_new[wp + 1] == proc_old[wp]);
        }
    }
    assert forall|id: u32| has_slot_id(proc_new, id) implies has_slot_id(s2, id) by {
        let w = choose|w: int| 0 <= w < proc_new.len() && proc_new[w].id == id;
        if w == 0 {
            assert(s2[k] == e);
        } else {
            assert(proc_new[w] == proc_old[w - 1]);
            assert(has_slot_id(proc_old, id));
            assert(has_slot_id(s, id));
            let v = choose|v: int| 0 <= v < s.len() && s[v].id == id;
            let v2: int = if v < k {
                v
            } else {
                v + 1
            };
            assert(s2[v2] == s[v]);
        }
    }
    assert forall|id: u32| has_slot_id(s2, id) implies slot_path(s2, id) == slot_path(
        proc_new,
        id,
    ) by {
        if id == e.id {
            assert(s2[k] == e);
            lemma_distinct_index(s2, id, k);
            lemma_distinct_index(proc_new, id, 0);
        } else {
            assert(has_slot_id(s, id)) by {
                let w = choose|w: int| 0 <= w < s2.len() && s2[w].id == id;
                let w1: int = if w < k {
                    w
                } else {
                    w - 1
                };
                assert(s2[w] == s[w1]);
            }
            lemma_sorted_distinct(s);
            let v = slot_index(s, id);
            assert(0 <= v < s.len() && s[v].id == id);
            let v2: int = if v < k {
                v
            } else {
                v + 1
            };
            assert(s2[v2] == s[v]);
            lemma_distinct_index(s2, id, v2);
            let wp = slot_index(proc_old, id);
            assert(has_slot_id(proc_old, id));
            assert(0 <= wp < proc_old.len() && proc_old[wp].id == id);
            lemma_distinct_index(proc_old, id, wp);
            assert(proc_new[wp + 1] == proc_old[wp]);
            lemma_distinct_index(proc_new, id, wp + 1);
        }
    }
}

/// The position `id` would occupy in a table sorted by id.
fn insert_pos(saves: &Vec<SlotEntry>, id: u32) -> (r: usize)
    requires
        sorted_ids(saves@),
    ensures
        r <= saves@.len(),
        forall|k: int| 0 <= k < r ==> (#[trigger] saves@[k].id) < id,
        forall|k: int| r <= k < saves@.len() ==> (#[trigger] saves@[k].id) >= id,
{
    let n = saves.len();
    let mut i: usize = 0;
    while i < n
        invariant
            sorted_ids(saves@),
            n == saves@.len(),
            i <= n,
            forall|k: int| 0 <= k < i ==> (#[trigger] saves@[k].id) < id,
        decreases n - i,
    {
        if saves[i].id >= id {
            proof {
                assert forall|k: int| i <= k < saves@.len() implies (#[trigger] saves@[k].id)
                    >= id by {
                    if k > i {
                        assert(saves@[i as int].id < saves@[k].id);
                    }
                }
            }
            return i;
        }
        i += 1;
    }
    n
}

/// The persisted settings record of the save system: the slot table, the
/// base directory save files are resolved under, and the last-saved pointer
/// (0 = none).  Mutated only by the slot manager's own decisions.
#[derive(Debug)]
pub struct SaveConfig {
    saves: Vec<SlotEntry>,
    save_dir: Vec<u8>,
    last_saved: u32,
}

impl SaveConfig {
    /// The slot table, in ascending id order.
    pub closed spec fn slots(self) -> Seq<SlotEntry> {
        self.saves@
    }

    /// The base directory all slot paths are resolved under.
    pub closed spec fn dir(self) -> Seq<u8> {
        self.save_dir@
    }

    /// The persisted last-saved pointer; 0 = none.
    pub closed spec fn last(self) -> u32 {
        self.last_saved
    }

    /// Well-formedness: slot ids strictly ascending and positive.
    pub open spec fn wf(self) -> bool {
        sorted_ids(self.slots()) && positive_ids(self.slots())
    }

    /// An empty table under `save_dir`, with no last save.
    pub fn new(save_dir: Vec<u8>) -> (r: SaveConfig)
        ensures
            r.slots().len() == 0,
            r.dir() == save_dir@,
            r.last() == 0,
            r.wf(),
    {
        SaveConfig { saves: Vec::new(), save_dir, last_saved: 0 }
    }

    /// The table entries, in ascending id order, for the host to persist or
    /// display.
    pub fn entries(&self) -> (r: &Vec<SlotEntry>)
        ensures
            r@ == self.slots(),
    {
        &self.saves
    }

    /// The save directory.
    pub fn save_dir(&self) -> (r: &Vec<u8>)
        ensures
            r@ == self.dir(),
    {
        &self.save_dir
    }

    /// The last-saved pointer.
    pub fn last_saved(&self) -> (r: u32)
        ensures
            r == self.last(),
    {
        self.last_saved
    }

    /// Rebuilds a record from parsed settings data: the table entries in any
    /// order, the save directory and the last-saved pointer.  The data is
    /// accepted iff every id is positive and none repeats; anything else
    /// returns `None`, which the settings load treats as a parse failure.
    pub fn from_entries(
        entries: Vec<SlotEntry>,
        save_dir: Vec<u8>,
        last_saved: u32,
    ) -> (r: Option<SaveConfig>)
        ensures
            r is Some <==> valid_entries(entries@),
            r is Some ==> {
                let c = r->0;
                &&& c.wf()
                &&& c.dir() == save_dir@
                &&& c.last() == last_saved
                &&& c.slots().len() == entries@.len()
                &&& (forall|id: u32| has_slot_id(c.slots(), id) <==> has_slot_id(entries@, id))
                &&& (forall|id: u32|
                    has_slot_id(entries@, id) ==> slot_path(c.slots(), id) == slot_path(
                        entries@,
                        id,
                    ))
            },
    {
        let ghost all = entries@;
        let mut rest = entries;
        let mut saves: Vec<SlotEntry> = Vec::new();
        while rest.len() > 0
            invariant
                all == entries@,
                rest@ == all.subrange(0, rest@.len() as int),
                saves@.len() + rest@.len() == all.len(),
                sorted_ids(saves@),
                positive_ids(saves@),
                distinct_ids(all.subrange(rest@.len() as int, all.len() as int)),
                forall|p: int| rest@.len() <= p < all.len() ==> (#[trigger] all[p].id) >= 1,
                forall|id: u32|
                    has_slot_id(saves@, id) <==> has_slot_id(
                        all.subrange(rest@.len() as int, all.len() as int),
                        id,
                    ),
                forall|id: u32|
                    has_slot_id(saves@, id) ==> slot_path(saves@, id) == slot_path(
                        all.subrange(rest@.len() as int, all.len() as int),
                        id,
                    ),
            decreases rest@.len(),
        {
            match rest.pop() {
                Some(e) => {
                    let ghost l = rest@.len() as int;
                    proof {
                        assert(e == all[l]);
                        assert(rest@ =~= all.subrange(0, l));
                    }
                    let ghost proc_old = all.subrange(l + 1, all.len() as int);
                    let ghost proc_new = all.subrange(l, all.len() as int);
                    if e.id == 0 {
                        proof {
                            assert(all[l].id == 0);
                            assert(!positive_ids(all));
                        }
                        return None;
                    }
                    let pos = insert_pos(&saves, e.id);
                    if pos < saves.len() && saves[pos].id == e.id {
                        proof {
                            assert(has_slot_id(saves@, e.id));
                            let wp = choose|w: int|
                                0 <= w < proc_old.len() && proc_old[w].id == e.id;
                            assert(proc_old[wp] == all[l + 1 + wp]);
                            assert(!distinct_ids(all)) by {
                                assert(all[l].id == all[l + 1 + wp].id);
                            }
                        }
                        return None;
                    }
                    let ghost s_before = saves@;
                    saves.insert(pos, e);
                    proof {
                        assert forall|p: int| 0 <= p < proc_old.len() implies proc_new[p + 1]
                            == (#[trigger] proc_old[p]) by {
                            assert(proc_old[p] == all[l + 1 + p]);
                            assert(proc_new[p + 1] == all[l + (p + 1)]);
                        }
                        assert(proc_new[0] == all[l]);
                        lemma_table_insert(s_before, saves@, proc_old, proc_new, e, pos as int);
                        assert forall|p: int| rest@.len() <= p < all.len() implies (
                        #[trigger] all[p].id) >= 1 by {
                            if p == l {
                                assert(all[l] == e);
                            }
                        }
                    }
                },
                None => {
                    proof {
                        assert(false);
                    }
                },
            }
        }
        proof {
            assert(all.subrange(0, all.len() as int) =~= all);
        }
        Some(SaveConfig { saves, save_dir, last_saved })
    }

    /// Index of `id` in the table.
    fn find(&self, id: u32) -> (r: Option<usize>)
        requires
            self.wf(),
        ensures
            r is Some <==> has_slot_id(self.slots(), id),
            r is Some ==> 0 <= r->0 < self.slots().len()
                && self.slots()[r->0 as int].id == id
                && slot_index(self.slots(), id) == r->0 as int,
    {
        let n = self.saves.len();
        let mut i: usize = 0;
        while i < n
            invariant
                self.wf(),
                n == self.slots().len(),
                i <= n,
                forall|k: int| 0 <= k < i ==> self.slots()[k].id != id,
            decreases n - i,
        {
            if self.saves[i].id == id {
                proof {
                    lemma_sorted_distinct(self.slots());
                    lemma_distinct_index(self.slots(), id, i as int);
                }
                return Some(i);
            }
            i += 1;
        }
        None
    }

    /// Whether `id` has a slot in the table.
    pub fn contains(&self, id: u32) -> (r: bool)
        requires
            self.wf(),
        ensures
            r == has_slot_id(self.slots(), id),
    {
        self.find(id).is_some()
    }

    /// The full path a `LoadGame(id)` or a re-save of slot `id` operates on:
    /// the save directory joined with the slot's stored path.  `None` for an
    /// id without a slot.
    pub fn resolve_path(&self, id: u32) -> (r: Option<Vec<u8>>)
        requires
            self.wf(),
        ensures
            r is Some <==> has_slot_id(self.slots(), id),
            r is Some ==> r->0@ == join_spec(self.dir(), slot_path(self.slots(), id)),
    {
        match self.find(id) {
            Some(i) => Some(join_path(&self.save_dir, &self.saves[i].path)),
            None => None,
        }
    }

    /// The slot a `LoadRecent` resolves to: the last-saved slot while it is
    /// still in the table, and `None` otherwise — in particular whenever no
    /// save has happened yet (`last() == 0`), which makes `LoadRecent` a
    /// silent no-op rather than an error.
    pub fn recent_slot(&self) -> (r: Option<u32>)
        requires
            self.wf(),
        ensures
            r is Some <==> has_slot_id(self.slots(), self.last()),
            r is Some ==> r->0 == self.last(),
            self.last() == 0 ==> r is None,
    {
        if self.contains(self.last_saved) {
            Some(self.last_saved)
        } else {
            None
        }
    }

    /// Applies one save decision once the encoding is done: `cipher` is the
    /// encoded application state and `name` the file name a fresh slot would
    /// be stored under.  For `id == 0` a fresh slot is allocated at one past
    /// the maximum id and both pointers move to it; for a known nonzero `id`
    /// the slot's file is rewritten in place and both pointers move to it;
    /// for an unknown nonzero `id` nothing happens at all.  The returned
    /// write job, if any, is what makes the save durable.
    pub fn apply_save(
        &mut self,
        current: &mut CurrentSave,
        id: u32,
        cipher: Vec<u8>,
        name: Vec<u8>,
    ) -> (r: Option<SaveOutcome>)
        requires
            old(self).wf(),
            id == 0 && old(self).slots().len() > 0 ==> old(self).slots().last().id < u32::MAX,
        ensures
            final(self).wf(),
            final(self).dir() == old(self).dir(),
            r is Some <==> (id == 0 || has_slot_id(old(self).slots(), id)),
            id != 0 && !has_slot_id(old(self).slots(), id) ==> *final(self) == *old(self)
                && *final(current) == *old(current),
            id == 0 ==> {
                let nid = next_slot_id(old(self).slots()) as u32;
                &&& r->0.slot_id == nid
                &&& !has_slot_id(old(self).slots(), nid)
                &&& final(self).slots() == old(self).slots().push(
                    (SlotEntry { id: nid, path: name }),
                )
                &&& final(self).last() == nid
                &&& final(current).0 == nid
                &&& r->0.job.path@ == join_spec(old(self).dir(), name@)
                &&& r->0.job.contents == cipher
                &&& r->0.settings_changed == true
            },
            id != 0 && has_slot_id(old(self).slots(), id) ==> {
                &&& r->0.slot_id == id
                &&& final(self).slots() == old(self).slots()
                &&& final(self).last() == id
                &&& final(current).0 == id
                &&& r->0.job.path@ == join_spec(old(self).dir(), slot_path(old(self).slots(), id))
                &&& r->0.job.contents == cipher
                &&& r->0.settings_changed == false
            },
    {
        if id == 0 {
            let nid: u32 = if self.saves.len() > 0 {
                self.saves[self.saves.len() - 1].id + 1
            } else {
                1
            };
            let path = join_path(&self.save_dir, &name);
            proof {
                lemma_fresh_slot_id(self.slots());
            }
            self.saves.push(SlotEntry { id: nid, path: name });
            self.last_saved = nid;
            current.0 = nid;
            proof {
                let s = old(self).slots();
                let s2 = self.slots();
                assert forall|i: int, j: int| 0 <= i < j < s2.len() implies s2[i].id < s2[j].id by {
                    if j < s.len() {
                        assert(s[i].id < s[j].id);
                    } else {
                        assert(s2[i] == s[i]);
                        assert(s[i].id < next_slot_id(s));
                    }
                }
            }
            Some(SaveOutcome {
                slot_id: nid,
                job: WriteJob { path, contents: cipher },
                settings_changed: true,
            })
        } else {
            match self.find(id) {
                Some(i) => {
                    let path = join_path(&self.save_dir, &self.saves[i].path);
                    self.last_saved = id;
                    current.0 = id;
                    Some(SaveOutcome {
                        slot_id: id,
                        job: WriteJob { path, contents: cipher },
                        settings_changed: false,
                    })
                },
                None => None,
            }
        }
    }

    /// Processes one `SaveGame` request against the already-serialized
    /// application state `plain`: encodes it through the codec pipeline and,
    /// when that succeeds, updates the table and pointers exactly as
    /// `apply_save` describes, handing back the slot id, the prepared write
    /// job (whose contents decode back to `plain`) and whether the settings
    /// record must be flushed.  On an encode failure — possible only for a
    /// plaintext over the cipher's size cap — or for an unknown nonzero slot
    /// id, every piece of state is left unchanged.
    pub fn save(
        &mut self,
        current: &mut CurrentSave,
        req: &SaveGame,
        plain: &Vec<u8>,
    ) -> (r: Option<SaveOutcome>)
        requires
            old(self).wf(),
            req.0 == 0 && old(self).slots().len() > 0 ==> old(self).slots().last().id < u32::MAX,
        ensures
            final(self).wf(),
            final(self).dir() == old(self).dir(),
            r is None ==> *final(self) == *old(self) && *final(current) == *old(current),
            req.0 != 0 && !has_slot_id(old(self).slots(), req.0) ==> r is None,
            (req.0 == 0 || has_slot_id(old(self).slots(), req.0)) && encryptable(plain@)
                ==> r is Some,
            r is Some ==> decrypt_of(r->0.job.contents@) == Some(plain@),
            r is Some && req.0 == 0 ==> {
                let nid = next_slot_id(old(self).slots()) as u32;
                &&& r->0.slot_id == nid
                &&& !has_slot_id(old(self).slots(), nid)
                &&& final(self).slots().len() == old(self).slots().len() + 1
                &&& final(self).slots().subrange(0, old(self).slots().len() as int)
                    == old(self).slots()
                &&& final(self).slots().last().id == nid
                &&& generated_name(final(self).slots().last().path@)
                &&& r->0.job.path@ == join_spec(
                    old(self).dir(),
                    final(self).slots().last().path@,
                )
                &&& final(self).last() == nid
                &&& final(current).0 == nid
                &&& r->0.settings_changed == true
            },
            r is Some && req.0 != 0 ==> {
                &&& r->0.slot_id == req.0
                &&& final(self).slots() == old(self).slots()
                &&& final(self).last() == req.0
                &&& final(current).0 == req.0
                &&& r->0.job.path@ == join_spec(
                    old(self).dir(),
                    slot_path(old(self).slots(), req.0),
                )
                &&& r->0.settings_changed == false
            },
    {
        let id = req.0;
        if id != 0 && !self.contains(id) {
            return None;
        }
        let name = if id == 0 {
            fresh_file_name()
        } else {
            Vec::new()
        };
        match encode_save(plain) {
            Ok(cipher) => {
                let r = self.apply_save(current, id, cipher, name);
                proof {
                    if id == 0 {
                        assert(self.slots().subrange(0, old(self).slots().len() as int) =~= old(
                            self,
                        ).slots());
                    }
                }
                r
            },
            Err(_) => None,
        }
    }

    /// The file a `DeleteSave(id)` removes: the slot's stored path resolved
    /// under the save directory, the same location every save and load of
    /// the slot operates on.  `None` for an unknown id, which makes the
    /// request a silent no-op.
    pub fn delete_target(&self, id: u32) -> (r: Option<Vec<u8>>)
        requires
            self.wf(),
        ensures
            r is Some <==> has_slot_id(self.slots(), id),
            r is Some ==> r->0@ == join_spec(self.dir(), slot_path(self.slots(), id)),
    {
        self.resolve_path(id)
    }

    /// Applies the outcome of the host's file removal for `DeleteSave(id)`.
    /// When the file was removed, the entry leaves the table, the
    /// current-save pointer resets to 0 unconditionally, and the last-saved
    /// pointer resets only when it named the deleted slot.  When the removal
    /// failed, everything stays as it was, so the table never drops an entry
    /// whose file still exists.
    pub fn apply_delete(&mut self, current: &mut CurrentSave, id: u32, removed: bool)
        requires
            old(self).wf(),
            has_slot_id(old(self).slots(), id),
        ensures
            final(self).wf(),
            final(self).dir() == old(self).dir(),
            !removed ==> *final(self) == *old(self) && *final(current) == *old(current),
            removed ==> {
                let s = old(self).slots();
                &&& final(self).slots() == s.remove(slot_index(s, id))
                &&& !has_slot_id(final(self).slots(), id)
                &&& (forall|other: u32|
                    other != id ==> has_slot_id(final(self).slots(), other) == has_slot_id(
                        s,
                        other,
                    ))
                &&& (forall|other: u32|
                    other != id && has_slot_id(s, other) ==> slot_path(
                        final(self).slots(),
                        other,
                    ) == slot_path(s, other))
                &&& final(current).0 == 0
                &&& final(self).last() == (if old(self).last() == id {
                    0u32
                } else {
                    old(self).last()
                })
            },
    {
        if removed {
            match self.find(id) {
                Some(i) => {
                    proof {
                        self.slots().remove_ensures(i as int);
                    }
                    self.saves.remove(i);
                    current.0 = 0;
                    if self.last_saved == id {
                        self.last_saved = 0;
                    }
                    proof {
                        let s = old(self).slots();
                        let k = i as int;
                        let s2 = self.slots();
                        lemma_sorted_distinct(s);
                        assert(s2.len() == s.len() - 1);
                        assert forall|p: int, q: int| 0 <= p < q < s2.len() implies s2[p].id
                            < s2[q].id by {
                            let p1: int = if p < k { p } else { p + 1 };
                            let q1: int = if q < k { q } else { q + 1 };
                            assert(s2[p] == s[p1]);
                            assert(s2[q] == s[q1]);
                        }
                        assert forall|p: int| 0 <= p < s2.len() implies s2[p].id >= 1 by {
                            let p1: int = if p < k { p } else { p + 1 };
                            assert(s2[p] == s[p1]);
                        }
                        assert forall|other: u32| has_slot_id(s2, other) implies other == id
                            || has_slot_id(s, other) by {
                            let w = choose|w: int| 0 <= w < s2.len() && s2[w].id == other;
                            let w1: int = if w < k { w } else { w + 1 };
                            assert(s2[w] == s[w1]);
                        }
                        assert(!has_slot_id(s2, id)) by {
                            if has_slot_id(s2, id) {
                                let w = choose|w: int| 0 <= w < s2.len() && s2[w].id == id;
                                let w1: int = if w < k { w } else { w + 1 };
                                assert(s2[w] == s[w1]);
                                lemma_distinct_index(s, id, w1);
                                assert(slot_index(s, id) == k);
                            }
                        }
                        assert forall|other: u32| other != id && has_slot_id(s, other) implies
                            has_slot_id(s2, other) && slot_path(s2, other) == slot_path(
                            s,
                            other,
                        ) by {
                            let w = slot_index(s, other);
                            assert(0 <= w < s.len() && s[w].id == other);
                            assert(w != k) by {
                                lemma_distinct_index(s, id, k);
                            }
                            let w2: int = if w < k { w } else { w - 1 };
                            assert(s2[w2] == s[w]);
                            lemma_sorted_distinct(s2);
                            lemma_distinct_index(s2, other, w2);
                        }
                    }
                },
                None => {
                    proof {
                        assert(false);
                    }
                },
            }
        }
    }

    /// Applies the outcome of the host's file read for `LoadGame(id)`:
    /// `bytes` holds the file image, or `None` when the read failed.  On a
    /// successful decode, the current-save pointer moves to `id` and the
    /// serialized state is returned for the host to adopt; on any failure
    /// the pointer keeps its prior value and the failure is reported.
    pub fn apply_load(
        &self,
        current: &mut CurrentSave,
        id: u32,
        bytes: Option<&Vec<u8>>,
    ) -> (r: Result<Vec<u8>, SaveError>)
        requires
            self.wf(),
            has_slot_id(self.slots(), id),
        ensures
            r is Ok <==> (bytes is Some && decrypt_of(bytes->0@) is Some),
            r is Ok ==> Some(r->Ok_0@) == decrypt_of(bytes->0@) && final(current).0 == id,
            r is Err ==> *final(current) == *old(current),
            bytes is None ==> r == Result::<Vec<u8>, SaveError>::Err(SaveError::Io),
            bytes is Some && decrypt_of(bytes->0@) is None ==> r == Result::<
                Vec<u8>,
                SaveError,
            >::Err(SaveError::Decryption),
    {
        match bytes {
            Some(b) => match decode_save(b) {
                Ok(p) => {
                    current.0 = id;
                    Ok(p)
                },
                Err(e) => Err(e),
            },
            None => Err(SaveError::Io),
        }
    }
}

impl Default for SaveConfig {
    /// The first-run record: an empty table, an empty save directory and no
    /// last save.
    fn default() -> (r: SaveConfig)
        ensures
            r.slots().len() == 0,
            r.dir().len() == 0,
            r.last() == 0,
            r.wf(),
    {
        SaveConfig::new(Vec::new())
    }
}

} // verus!
