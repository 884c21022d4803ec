//! Move planning: combines scanned entries with the computed bucket
//! structure to produce the list of renames, resolving file-name
//! collisions deterministically.
//!
//! Entries with an identifier go to the folder the grouper assigns;
//! entries without one go to a fixed `etc` folder. Within a destination
//! folder the first entry keeps its name and each further entry with
//! the same name receives a `_conflict<k>` suffix before its extension,
//! `k` counted per folder and original name. Moves whose destination
//! equals their source are dropped, so a tree that is already organized
//! plans nothing.

use vstd::prelude::*;

use crate::digits::dec_digits;
use crate::digits::is_digit;
use crate::digits::lemma_log10_bounds;
use crate::digits::lemma_zp_digits;
use crate::digits::lemma_zp_injective;
use crate::digits::lemma_zp_len;
use crate::digits::n_digits;
use crate::digits::push_char;
use crate::digits::u64_to_string;
use crate::grouper::lemma_structure_no_slash;
use crate::grouper::structure_at;
use crate::grouper::compute_structure;
use crate::types::FileEntry;
use crate::types::MoveOperation;

verus! {

broadcast use vstd::std_specs::hash::group_hash_axioms;

/// The marker inserted into a colliding file name.
pub open spec fn conflict_marker() -> Seq<char> {
    seq!['_', 'c', 'o', 'n', 'f', 'l', 'i', 'c', 't']
}

/// The folder for entries without an identifier.
pub open spec fn etc_folder() -> Seq<char> {
    seq!['e', 't', 'c']
}

/// The position of the last `.` in `f`, or -1 if there is none.
pub open spec fn last_dot(f: Seq<char>) -> int
    decreases f.len(),
{
    if f.len() == 0 {
        -1
    } else if f.last() == '.' {
        f.len() - 1
    } else {
        last_dot(f.drop_last())
    }
}

/// The name a colliding file receives: `_conflict<k>` inserted before
/// the extension (everything from the last dot on), or appended when
/// the name has no dot.
pub open spec fn conflict_name(f: Seq<char>, k: int) -> Seq<char> {
    let d = last_dot(f);
    if d < 0 {
        f + conflict_marker() + dec_digits(k)
    } else {
        f.subrange(0, d) + conflict_marker() + dec_digits(k) + f.subrange(d, f.len() as int)
    }
}

/// The identifiers of the entries that have one, in entry order.
pub open spec fn nums_of(entries: Seq<FileEntry>) -> Seq<u32>
    decreases entries.len(),
{
    if entries.len() == 0 {
        Seq::empty()
    } else {
        nums_of(entries.drop_last()) + (match entries.last().problem_number {
            Some(n) => seq![n],
            None => Seq::empty(),
        })
    }
}

/// The destination folder of one entry: the grouper's assignment for
/// its identifier (with `0` as the digit mask, so names read as range
/// starts), or `etc` when it has none.
pub open spec fn folder_of(entries: Seq<FileEntry>, t: int, e: FileEntry) -> Seq<char> {
    match e.problem_number {
        None => etc_folder(),
        Some(n) => structure_at(nums_of(entries), t, '0', n),
    }
}

/// The collision-tracking state of the planner after some prefix of
/// the entries: which (folder, final name) pairs are taken, how many
/// collisions each (folder, original name) key has seen, and the
/// destination path chosen for each entry so far.
pub struct PlanState {
    pub assigned: Seq<(Seq<char>, Seq<char>)>,
    pub counts: Map<(Seq<char>, Seq<char>), int>,
    pub targets: Seq<Seq<char>>,
}

/// The collision count recorded for a key (0 when absent).
pub open spec fn count_of(st: PlanState, key: (Seq<char>, Seq<char>)) -> int {
    if st.counts.contains_key(key) {
        st.counts[key]
    } else {
        0
    }
}

/// A destination path: the folder and name joined by `/`, or the bare
/// name when the folder is the root.
pub open spec fn join_path(folder: Seq<char>, name: Seq<char>) -> Seq<char> {
    if folder.len() == 0 {
        name
    } else {
        folder + seq!['/'] + name
    }
}

/// One planning step: an entry headed for `folder` under `filename`
/// keeps its name unless that name is already taken there, in which
/// case it receives the next conflict name for its key.
pub open spec fn plan_step(st: PlanState, folder: Seq<char>, filename: Seq<char>) -> PlanState {
    let collides = st.assigned.contains((folder, filename));
    let name = if collides {
        conflict_name(filename, count_of(st, (folder, filename)) + 1)
    } else {
        filename
    };
    PlanState {
        assigned: st.assigned.push((folder, name)),
        counts: if collides {
            st.counts.insert((folder, filename), count_of(st, (folder, filename)) + 1)
        } else {
            st.counts
        },
        targets: st.targets.push(join_path(folder, name)),
    }
}

/// The planner state after the first `i` entries.
pub open spec fn state_after(entries: Seq<FileEntry>, t: int, i: int) -> PlanState
    decreases i,
{
    if i <= 0 {
        PlanState {
            assigned: Seq::empty(),
            counts: Map::empty(),
            targets: Seq::empty(),
        }
    } else {
        plan_step(
            state_after(entries, t, i - 1),
            folder_of(entries, t, entries[i - 1]),
            entries[i - 1].filename@,
        )
    }
}

/// The destination path planned for entry `i`.
pub open spec fn target_of(entries: Seq<FileEntry>, t: int, i: int) -> Seq<char> {
    state_after(entries, t, i + 1).targets.last()
}

/// The planned moves for the first `i` entries: one `(from, to)` pair
/// per entry whose destination differs from its current path.
pub open spec fn moves_prefix(entries: Seq<FileEntry>, t: int, i: int) -> Seq<(Seq<char>, Seq<char>)>
    decreases i,
{
    if i <= 0 {
        Seq::empty()
    } else {
        moves_prefix(entries, t, i - 1) + (if entries[i - 1].current_path@ != target_of(
            entries,
            t,
            i - 1,
        ) {
            seq![(entries[i - 1].current_path@, target_of(entries, t, i - 1))]
        } else {
            Seq::empty()
        })
    }
}

/// The planned moves for a list of entries.
pub open spec fn plan_spec(entries: Seq<FileEntry>, t: int) -> Seq<(Seq<char>, Seq<char>)> {
    moves_prefix(entries, t, entries.len() as int)
}

/// The planner state after `i` entries has one record per entry.
pub proof fn lemma_state_sizes(entries: Seq<FileEntry>, t: int, i: int)
    requires
        0 <= i,
    ensures
        state_after(entries, t, i).assigned.len() == i,
        state_after(entries, t, i).targets.len() == i,
    decreases i,
{
    if i > 0 {
        lemma_state_sizes(entries, t, i - 1);
    }
}

/// An entry's identifier occurs in the identifier list.
proof fn lemma_nums_of_contains(entries: Seq<FileEntry>, i: int, n: u32)
    requires
        0 <= i < entries.len(),
        entries[i].problem_number == Some(n),
    ensures
        nums_of(entries).contains(n),
    decreases entries.len(),
{
    if i == entries.len() - 1 {
        let pre = nums_of(entries.drop_last());
        assert(nums_of(entries)[pre.len() as int] == n);
    } else {
        lemma_nums_of_contains(entries.drop_last(), i, n);
        let j = choose|j: int|
            0 <= j < nums_of(entries.drop_last()).len() && nums_of(entries.drop_last())[j] == n;
        assert(nums_of(entries)[j] == n);
    }
}

/// The new name for a file whose destination already holds a file of
/// its name: `_conflict<k>` goes in front of the extension.
pub fn resolve_conflict(filename: &str, conflict_num: u32) -> (r: String)
    ensures
        r@ == conflict_name(filename@, conflict_num as int),
{
    proof {
        reveal_strlit("_conflict");
        assert("_conflict"@ =~= conflict_marker());
    }
    let n = filename.unicode_len();
    let mut has_dot = false;
    let mut d: usize = 0;
    let mut j: usize = 0;
    while j < n
        invariant
            n == filename@.len(),
            j <= n,
            has_dot ==> d < j && d == last_dot(filename@.take(j as int)),
            !has_dot ==> last_dot(filename@.take(j as int)) == -1,
        decreases n - j,
    {
        proof {
            assert(filename@.take(j + 1).drop_last() =~= filename@.take(j as int));
            assert(filename@.take(j + 1).last() == filename@[j as int]);
        }
        if filename.get_char(j) == '.' {
            has_dot = true;
            d = j;
        }
        j = j + 1;
    }
    proof {
        assert(filename@.take(n as int) =~= filename@);
    }
    let digits = u64_to_string(conflict_num as u64);
    let mut s = String::new();
    if has_dot {
        s.append(filename.substring_char(0, d));
        s.append("_conflict");
        s.append(digits.as_str());
        s.append(filename.substring_char(d, n));
        proof {
            assert(s@ =~= conflict_name(filename@, conflict_num as int));
        }
    } else {
        s.append(filename);
        s.append("_conflict");
        s.append(digits.as_str());
        proof {
            assert(s@ =~= conflict_name(filename@, conflict_num as int));
        }
    }
    s
}

/// The collision count most recently recorded for a key (0 if none).
pub open spec fn counts_val(s: Seq<(String, String, u32)>, f: Seq<char>, n: Seq<char>) -> int
    decreases s.len(),
{
    if s.len() == 0 {
        0
    } else if s.last().0@ == f && s.last().1@ == n {
        s.last().2 as int
    } else {
        counts_val(s.drop_last(), f, n)
    }
}

/// Reads the collision count recorded for a key.
fn lookup_count(counts: &Vec<(String, String, u32)>, folder: &String, name: &String) -> (c: u32)
    ensures
        c as int == counts_val(counts@, folder@, name@),
{
    let mut i: usize = counts.len();
    proof {
        assert(counts@.take(counts@.len() as int) =~= counts@);
    }
    while i > 0
        invariant
            i <= counts@.len(),
            counts_val(counts@, folder@, name@) == counts_val(
                counts@.take(i as int),
                folder@,
                name@,
            ),
        decreases i,
    {
        proof {
            assert(counts@.take(i as int).last() == counts@[i - 1]);
            assert(counts@.take(i as int).drop_last() =~= counts@.take(i - 1));
        }
        let hit = counts[i - 1].0.eq(folder) && counts[i - 1].1.eq(name);
        if hit {
            return counts[i - 1].2;
        }
        i = i - 1;
    }
    0
}

/// Records one more collision for a key and returns the new count.
fn bump_count(counts: &mut Vec<(String, String, u32)>, folder: &String, name: &String) -> (c: u32)
    requires
        counts_val(old(counts)@, folder@, name@) < u32::MAX,
    ensures
        c as int == counts_val(old(counts)@, folder@, name@) + 1,
        forall|f2: Seq<char>, n2: Seq<char>|
            #[trigger] counts_val(final(counts)@, f2, n2) == (if f2 == folder@ && n2 == name@ {
                c as int
            } else {
                counts_val(old(counts)@, f2, n2)
            }),
{
    let c0 = lookup_count(counts, folder, name);
    let c = c0 + 1;
    counts.push((folder.clone(), name.clone(), c));
    proof {
        assert forall|f2: Seq<char>, n2: Seq<char>|
            #[trigger] counts_val(counts@, f2, n2) == (if f2 == folder@ && n2 == name@ {
                c as int
            } else {
                counts_val(old(counts)@, f2, n2)
            }) by {
            assert(counts@.last().0@ == folder@ && counts@.last().1@ == name@ && counts@.last().2
                == c);
            assert(counts@.drop_last() =~= old(counts)@);
        }
    }
    c
}

/// Whether a (folder, final name) pair is already taken.
fn assigned_contains(assigned: &Vec<(String, String)>, folder: &String, name: &String) -> (b: bool)
    ensures
        b == assigned@.map_values(|p: (String, String)| (p.0@, p.1@)).contains((folder@, name@)),
{
    let ghost pairs = assigned@.map_values(|p: (String, String)| (p.0@, p.1@));
    let mut i: usize = 0;
    while i < assigned.len()
        invariant
            pairs == assigned@.map_values(|p: (String, String)| (p.0@, p.1@)),
            i <= assigned@.len(),
            forall|k: int| 0 <= k < i ==> #[trigger] pairs[k] != (folder@, name@),
        decreases assigned@.len() - i,
    {
        let hit = assigned[i].0.eq(folder) && assigned[i].1.eq(name);
        if hit {
            proof {
                assert(pairs[i as int] == (folder@, name@));
            }
            return true;
        }
        proof {
            assert(pairs[i as int] == (assigned@[i as int].0@, assigned@[i as int].1@));
        }
        i = i + 1;
    }
    proof {
        if pairs.contains((folder@, name@)) {
            let k = choose|k: int| 0 <= k < pairs.len() && pairs[k] == (folder@, name@);
        }
    }
    false
}

/// Plans the moves that organize `entries`: each entry's destination
/// is its folder (per the grouper, or `etc`) joined with its file
/// name, conflict-suffixed when that name is already taken there;
/// entries already in place produce no move.
pub fn plan_moves(entries: &Vec<FileEntry>, threshold: usize) -> (r: Vec<MoveOperation>)
    requires
        entries@.len() <= u32::MAX,
    ensures
        r@.map_values(|op: MoveOperation| (op.from@, op.to@)) == plan_spec(
            entries@,
            threshold as int,
        ),
{
    let ghost t = threshold as int;
    let mut numbers: Vec<u32> = Vec::new();
    let mut i: usize = 0;
    while i < entries.len()
        invariant
            i <= entries@.len(),
            numbers@ == nums_of(entries@.take(i as int)),
        decreases entries@.len() - i,
    {
        proof {
            crate::seqs::lemma_take_push(entries@, i as int);
            assert(entries@.take(i + 1).drop_last() =~= entries@.take(i as int));
        }
        match entries[i].problem_number {
            Some(num) => {
                numbers.push(num);
                proof {
                    assert(numbers@ =~= nums_of(entries@.take(i + 1)));
                }
            },
            None => {
                proof {
                    assert(numbers@ =~= nums_of(entries@.take(i + 1)));
                }
            },
        }
        i = i + 1;
    }
    proof {
        assert(entries@.take(entries@.len() as int) =~= entries@);
    }
    let structure = compute_structure(&numbers, threshold, '0');
    let mut assigned: Vec<(String, String)> = Vec::new();
    let mut counts: Vec<(String, String, u32)> = Vec::new();
    let mut moves: Vec<MoveOperation> = Vec::new();
    let mut i: usize = 0;
    proof {
        reveal_strlit("etc");
    }
    while i < entries.len()
        invariant
            t == threshold as int,
            entries@.len() <= u32::MAX,
            i <= entries@.len(),
            numbers@ == nums_of(entries@),
            forall|n: u32| #[trigger] structure@.contains_key(n) <==> numbers@.contains(n),
            forall|n: u32|
                numbers@.contains(n) ==> (#[trigger] structure@[n])@ == structure_at(
                    numbers@,
                    t,
                    '0',
                    n,
                ),
            assigned@.map_values(|p: (String, String)| (p.0@, p.1@)) == state_after(
                entries@,
                t,
                i as int,
            ).assigned,
            forall|f2: Seq<char>, n2: Seq<char>|
                #[trigger] counts_val(counts@, f2, n2) == count_of(
                    state_after(entries@, t, i as int),
                    (f2, n2),
                ),
            forall|f2: Seq<char>, n2: Seq<char>|
                #[trigger] counts_val(counts@, f2, n2) <= i,
            moves@.map_values(|op: MoveOperation| (op.from@, op.to@)) == moves_prefix(
                entries@,
                t,
                i as int,
            ),
        decreases entries@.len() - i,
    {
        let ghost st = state_after(entries@, t, i as int);
        proof {
            reveal_strlit("etc");
            assert("etc"@ =~= etc_folder());
        }
        let filename = entries[i].filename.clone();
        let from = entries[i].current_path.clone();
        let folder = match entries[i].problem_number {
            None => String::from_str("etc"),
            Some(num) => {
                proof {
                    lemma_nums_of_contains(entries@, i as int, num);
                }
                match structure.get(&num) {
                    Some(v) => v.clone(),
                    None => String::new(),
                }
            },
        };
        proof {
            assert(folder@ == folder_of(entries@, t, entries@[i as int]));
        }
        let collides = assigned_contains(&assigned, &folder, &filename);
        proof {
            assert(collides == st.assigned.contains((folder@, filename@)));
        }
        let final_name = if collides {
            proof {
                assert(counts_val(counts@, folder@, filename@) <= i);
            }
            let c = bump_count(&mut counts, &folder, &filename);
            resolve_conflict(filename.as_str(), c)
        } else {
            filename.clone()
        };
        let target = if folder.as_str().unicode_len() == 0 {
            final_name.clone()
        } else {
            let mut tmp = folder.clone();
            push_char(&mut tmp, '/');
            tmp.append(final_name.as_str());
            tmp
        };
        proof {
            assert(folder@ + seq!['/'] + final_name@ =~= folder@.push('/') + final_name@);
            assert(target@ == join_path(folder@, final_name@));
        }
        let ghost st_next = state_after(entries@, t, i + 1);
        proof {
            assert(st_next == plan_step(st, folder@, filename@));
            assert(final_name@ == (if st.assigned.contains((folder@, filename@)) {
                conflict_name(filename@, count_of(st, (folder@, filename@)) + 1)
            } else {
                filename@
            }));
        }
        assigned.push((folder, final_name));
        proof {
            assert(assigned@.map_values(|p: (String, String)| (p.0@, p.1@)) =~= st_next.assigned);
            lemma_state_sizes(entries@, t, i + 1);
            assert(target_of(entries@, t, i as int) == target@);
        }
        let needed = !from.eq(&target);
        let ghost moves_before = moves@;
        if needed {
            moves.push(MoveOperation { from, to: target });
        }
        proof {
            assert(moves_prefix(entries@, t, i + 1) == moves_prefix(entries@, t, i as int) + (if
                entries@[i as int].current_path@ != target_of(entries@, t, i as int) {
                seq![(entries@[i as int].current_path@, target_of(entries@, t, i as int))]
            } else {
                Seq::<(Seq<char>, Seq<char>)>::empty()
            }));
            assert(moves@.map_values(|op: MoveOperation| (op.from@, op.to@)) =~= moves_prefix(
                entries@,
                t,
                i + 1,
            ));
        }
        i = i + 1;
    }
    proof {
        assert(moves_prefix(entries@, t, entries@.len() as int) == plan_spec(entries@, t));
    }
    moves
}

/// No move is planned for a prefix whose entries all sit at their
/// planned destinations.
proof fn lemma_moves_prefix_empty(entries: Seq<FileEntry>, t: int, i: int)
    requires
        0 <= i <= entries.len(),
        forall|j: int|
            0 <= j < entries.len() ==> entries[j].current_path@ == target_of(entries, t, j),
    ensures
        moves_prefix(entries, t, i) == Seq::<(Seq<char>, Seq<char>)>::empty(),
    decreases i,
{
    if i > 0 {
        lemma_moves_prefix_empty(entries, t, i - 1);
        assert(entries[i - 1].current_path@ == target_of(entries, t, i - 1));
        assert(moves_prefix(entries, t, i) =~= Seq::<(Seq<char>, Seq<char>)>::empty());
    }
}

/// Idempotence: planning is a fixed point. For a tree the tool has
/// already organized — every entry rests at the destination the planner
/// chooses for it — the plan is empty.
pub proof fn lemma_plan_idempotent(entries: Seq<FileEntry>, t: int)
    requires
        forall|j: int|
            0 <= j < entries.len() ==> entries[j].current_path@ == target_of(entries, t, j),
    ensures
        plan_spec(entries, t) == Seq::<(Seq<char>, Seq<char>)>::empty(),
{
    lemma_moves_prefix_empty(entries, t, entries.len() as int);
}

/// Whether the conflict marker occurs anywhere in `f`.
pub open spec fn contains_marker(f: Seq<char>) -> bool {
    exists|i: int| 0 <= i && i + 9 <= f.len() && #[trigger] f.subrange(i, i + 9) == conflict_marker()
}

/// Where the extension starts: at the last dot, or at the end of the
/// name when it has none.
pub open spec fn ext_start(f: Seq<char>) -> int {
    if last_dot(f) < 0 {
        f.len() as int
    } else {
        last_dot(f)
    }
}

/// The last dot lies in the name, is a dot, and no dot follows it.
proof fn lemma_last_dot_props(f: Seq<char>)
    ensures
        -1 <= last_dot(f) < f.len(),
        last_dot(f) >= 0 ==> f[last_dot(f)] == '.',
        forall|j: int| last_dot(f) < j < f.len() ==> f[j] != '.',
    decreases f.len(),
{
    if f.len() > 0 && f.last() != '.' {
        lemma_last_dot_props(f.drop_last());
        assert(forall|j: int| 0 <= j < f.len() - 1 ==> f[j] == f.drop_last()[j]);
    }
}

/// A conflict name split into its four parts.
proof fn lemma_conflict_decomp(f: Seq<char>, k: int)
    ensures
        conflict_name(f, k) == f.subrange(0, ext_start(f)) + conflict_marker() + dec_digits(k)
            + f.subrange(ext_start(f), f.len() as int),
{
    lemma_last_dot_props(f);
    if last_dot(f) < 0 {
        assert(f.subrange(0, f.len() as int) =~= f);
        assert(f.subrange(f.len() as int, f.len() as int) =~= Seq::<char>::empty());
        assert(conflict_name(f, k) =~= f.subrange(0, ext_start(f)) + conflict_marker()
            + dec_digits(k) + f.subrange(ext_start(f), f.len() as int));
    }
}

/// Only the first character of the conflict marker is an underscore,
/// and no character of it is a dot or a digit.
proof fn lemma_marker_chars()
    ensures
        conflict_marker().len() == 9,
        conflict_marker()[0] == '_',
        forall|sh: int| 1 <= sh < 9 ==> #[trigger] conflict_marker()[sh] != '_',
        forall|sh: int| 0 <= sh < 9 ==> #[trigger] conflict_marker()[sh] != '.',
        forall|sh: int| 0 <= sh < 9 ==> !is_digit(#[trigger] conflict_marker()[sh]),
{
    assert forall|sh: int| 1 <= sh < 9 implies #[trigger] conflict_marker()[sh] != '_' by {
        if sh == 1 {
        } else if sh == 2 {
        } else if sh == 3 {
        } else if sh == 4 {
        } else if sh == 5 {
        } else if sh == 6 {
        } else if sh == 7 {
        } else {
            assert(sh == 8);
        }
    }
}

/// Every conflict name carries the marker.
proof fn lemma_conflict_has_marker(f: Seq<char>, k: int)
    ensures
        contains_marker(conflict_name(f, k)),
{
    lemma_conflict_decomp(f, k);
    lemma_last_dot_props(f);
    let e = ext_start(f);
    let name = conflict_name(f, k);
    assert(name.subrange(e, e + 9) =~= conflict_marker());
}

/// A marker-free name is no conflict name.
proof fn lemma_marker_free_not_conflict(f: Seq<char>, g: Seq<char>, k: int)
    requires
        !contains_marker(f),
    ensures
        f != conflict_name(g, k),
{
    lemma_conflict_has_marker(g, k);
}

/// Decimal representations are injective.
proof fn lemma_dec_injective(c1: int, c2: int)
    requires
        c1 >= 0,
        c2 >= 0,
        dec_digits(c1) == dec_digits(c2),
    ensures
        c1 == c2,
{
    lemma_zp_len(c1, n_digits(c1));
    lemma_zp_len(c2, n_digits(c2));
    assert(n_digits(c1) == n_digits(c2));
    lemma_log10_bounds(c1);
    lemma_log10_bounds(c2);
    if c1 != c2 {
        lemma_zp_injective(c1, c2, n_digits(c1));
    }
}

/// In two equal conflict names, the stems have equal length: the
/// ordered half of the argument.
proof fn lemma_conflict_parts(f1: Seq<char>, c1: int, f2: Seq<char>, c2: int)
    requires
        !contains_marker(f1),
        !contains_marker(f2),
        c1 >= 0,
        c2 >= 0,
        conflict_name(f1, c1) == conflict_name(f2, c2),
        ext_start(f1) <= ext_start(f2),
    ensures
        ext_start(f1) == ext_start(f2),
{
    let nn = conflict_name(f1, c1);
    let k1 = ext_start(f1);
    let k2 = ext_start(f2);
    let d1 = dec_digits(c1);
    let d2 = dec_digits(c2);
    lemma_conflict_decomp(f1, c1);
    lemma_conflict_decomp(f2, c2);
    lemma_last_dot_props(f1);
    lemma_last_dot_props(f2);
    lemma_marker_chars();
    lemma_zp_len(c1, n_digits(c1));
    lemma_zp_len(c2, n_digits(c2));
    lemma_zp_digits(c1, n_digits(c1));
    lemma_zp_digits(c2, n_digits(c2));
    assert(nn.len() == f1.len() + 9 + d1.len());
    assert(nn.len() == f2.len() + 9 + d2.len());
    let off = k1 + 9 + d1.len();
    if k1 < k2 {
        assert(nn[k2] == conflict_marker()[0]);
        if k2 < k1 + 9 {
            let sh = k2 - k1;
            assert(nn[k2] == conflict_marker()[sh]);
            assert(false);
        } else if k2 < off {
            let a = k2 - (k1 + 9);
            assert(nn[k2] == d1[a]);
            assert(is_digit(d1[a]));
            assert(false);
        } else {
            let start = k2 - 9 - d1.len();
            assert(k2 <= f2.len());
            assert(f2.len() + d2.len() == f1.len() + d1.len());
            assert(d2.len() >= 1);
            assert(start + 9 <= f1.len());
            assert(k1 <= start);
            assert forall|sh: int| 0 <= sh < 9 implies f1[start + sh] == conflict_marker()[sh] by {
                assert(nn[k2 + sh] == conflict_marker()[sh]);
                assert(nn[k2 + sh] == f1[k1 + (k2 + sh - off)]);
                assert(k1 + (k2 + sh - off) == start + sh);
            }
            assert(f1.subrange(start, start + 9) =~= conflict_marker());
            assert(contains_marker(f1));
            assert(false);
        }
    }
}

/// Conflict names of marker-free originals are injective in the
/// original name and the count.
proof fn lemma_conflict_injective(f1: Seq<char>, c1: int, f2: Seq<char>, c2: int)
    requires
        !contains_marker(f1),
        !contains_marker(f2),
        c1 >= 0,
        c2 >= 0,
        conflict_name(f1, c1) == conflict_name(f2, c2),
    ensures
        f1 == f2,
        c1 == c2,
{
    let nn = conflict_name(f1, c1);
    let k1 = ext_start(f1);
    let k2 = ext_start(f2);
    if k1 <= k2 {
        lemma_conflict_parts(f1, c1, f2, c2);
    } else {
        lemma_conflict_parts(f2, c2, f1, c1);
    }
    let k = k1;
    assert(k1 == k2);
    let d1 = dec_digits(c1);
    let d2 = dec_digits(c2);
    lemma_conflict_decomp(f1, c1);
    lemma_conflict_decomp(f2, c2);
    lemma_last_dot_props(f1);
    lemma_last_dot_props(f2);
    lemma_marker_chars();
    lemma_zp_len(c1, n_digits(c1));
    lemma_zp_len(c2, n_digits(c2));
    lemma_zp_digits(c1, n_digits(c1));
    lemma_zp_digits(c2, n_digits(c2));
    assert(nn.len() == f1.len() + 9 + d1.len());
    assert(nn.len() == f2.len() + 9 + d2.len());
    assert(d1.len() >= 1 && d2.len() >= 1);
    if d1.len() < d2.len() {
        let j = k + 9 + d1.len();
        if k == f1.len() {
            assert(nn.len() == j);
            assert(j < k + 9 + d2.len());
            assert(false);
        } else {
            assert(last_dot(f1) == k);
            assert(f1[k] == '.');
            assert(nn[j] == f1[k + (j - (k + 9 + d1.len()))]);
            assert(nn[j] == '.');
            assert(nn[j] == d2[j - (k + 9)]);
            assert(is_digit(d2[j - (k + 9)]));
            assert(false);
        }
    }
    if d2.len() < d1.len() {
        let j = k + 9 + d2.len();
        if k == f2.len() {
            assert(nn.len() == j);
            assert(j < k + 9 + d1.len());
            assert(false);
        } else {
            assert(last_dot(f2) == k);
            assert(f2[k] == '.');
            assert(nn[j] == f2[k + (j - (k + 9 + d2.len()))]);
            assert(nn[j] == '.');
            assert(nn[j] == d1[j - (k + 9)]);
            assert(is_digit(d1[j - (k + 9)]));
            assert(false);
        }
    }
    assert(d1.len() == d2.len());
    assert(d1 =~= d2) by {
        assert forall|a: int| 0 <= a < d1.len() implies d1[a] == d2[a] by {
            assert(nn[k + 9 + a] == d1[a]);
            assert(nn[k + 9 + a] == d2[a]);
        }
    }
    lemma_dec_injective(c1, c2);
    assert(f1.len() == f2.len());
    assert(f1 =~= f2) by {
        assert forall|a: int| 0 <= a < f1.len() implies f1[a] == f2[a] by {
            if a < k {
                assert(nn[a] == f1[a]);
                assert(nn[a] == f2[a]);
            } else {
                assert(nn[9 + d1.len() + a] == f1[a]);
                assert(nn[9 + d2.len() + a] == f2[a]);
            }
        }
    }
}

/// The (folder, final name) pair the planner assigns to entry `i`.
pub open spec fn planned_pair(entries: Seq<FileEntry>, t: int, i: int) -> (Seq<char>, Seq<char>) {
    state_after(entries, t, i + 1).assigned.last()
}

/// Once assigned, a pair never changes.
proof fn lemma_assigned_stable(entries: Seq<FileEntry>, t: int, i: int, m: int)
    requires
        0 <= i < m,
    ensures
        state_after(entries, t, m).assigned.len() == m,
        state_after(entries, t, m).assigned[i] == planned_pair(entries, t, i),
    decreases m,
{
    lemma_state_sizes(entries, t, m);
    lemma_state_sizes(entries, t, m - 1);
    if i < m - 1 {
        lemma_assigned_stable(entries, t, i, m - 1);
    }
}

/// Collision counts are never negative.
proof fn lemma_counts_nonneg(entries: Seq<FileEntry>, t: int, m: int, key: (Seq<char>, Seq<char>))
    requires
        0 <= m,
    ensures
        count_of(state_after(entries, t, m), key) >= 0,
    decreases m,
{
    if m > 0 {
        lemma_counts_nonneg(entries, t, m - 1, key);
    }
}

/// Collision counts only grow.
proof fn lemma_counts_mono(entries: Seq<FileEntry>, t: int, a: int, b: int, key: (
    Seq<char>,
    Seq<char>,
))
    requires
        0 <= a <= b,
    ensures
        count_of(state_after(entries, t, a), key) <= count_of(state_after(entries, t, b), key),
    decreases b,
{
    if a < b {
        lemma_counts_mono(entries, t, a, b - 1, key);
        lemma_counts_nonneg(entries, t, b - 1, key);
    }
}

/// One planning step, named: the pair holds the entry's folder, and
/// its name is the original or the next conflict name for its key.
proof fn lemma_planned_shape(entries: Seq<FileEntry>, t: int, i: int)
    requires
        0 <= i,
    ensures
        ({
            let st = state_after(entries, t, i);
            let folder = folder_of(entries, t, entries[i]);
            let fname = entries[i].filename@;
            let key = (folder, fname);
            let pair = planned_pair(entries, t, i);
            &&& pair.0 == folder
            &&& (if st.assigned.contains(key) {
                &&& pair.1 == conflict_name(fname, count_of(st, key) + 1)
                &&& count_of(state_after(entries, t, i + 1), key) == count_of(st, key) + 1
                &&& (forall|k2: (Seq<char>, Seq<char>)|
                    k2 != key ==> #[trigger] count_of(state_after(entries, t, i + 1), k2)
                        == count_of(st, k2))
            } else {
                &&& pair.1 == fname
                &&& state_after(entries, t, i + 1).counts == st.counts
            })
        }),
{
    lemma_state_sizes(entries, t, i);
}

/// The destination of entry `i` joins its planned folder and name.
proof fn lemma_target_join(entries: Seq<FileEntry>, t: int, i: int)
    requires
        0 <= i,
    ensures
        target_of(entries, t, i) == join_path(
            planned_pair(entries, t, i).0,
            planned_pair(entries, t, i).1,
        ),
{
    lemma_state_sizes(entries, t, i);
    lemma_state_sizes(entries, t, i + 1);
}

/// With marker-free original names, all planned pairs are distinct,
/// and every planned name is the original or a recorded conflict name.
proof fn lemma_pairs_distinct(entries: Seq<FileEntry>, t: int, m: int)
    requires
        0 <= m <= entries.len(),
        forall|k: int| 0 <= k < entries.len() ==> !contains_marker(#[trigger] entries[k].filename@),
    ensures
        forall|i: int, j: int|
            0 <= i < j < m ==> planned_pair(entries, t, i) != planned_pair(entries, t, j),
        forall|i: int|
            0 <= i < m ==> planned_pair(entries, t, i).0 == folder_of(entries, t, entries[i]),
        forall|i: int|
            0 <= i < m ==> planned_pair(entries, t, i).1 == entries[i].filename@ || (exists|c: int|
                1 <= c <= count_of(
                    state_after(entries, t, m),
                    (planned_pair(entries, t, i).0, entries[i].filename@),
                ) && planned_pair(entries, t, i).1 == #[trigger] conflict_name(
                    entries[i].filename@,
                    c,
                )),
    decreases m,
{
    if m > 0 {
        lemma_pairs_distinct(entries, t, m - 1);
        let e = m - 1;
        let st = state_after(entries, t, e);
        let folder = folder_of(entries, t, entries[e]);
        let fname = entries[e].filename@;
        let key = (folder, fname);
        let pair = planned_pair(entries, t, e);
        lemma_planned_shape(entries, t, e);
        lemma_counts_nonneg(entries, t, e, key);
        lemma_state_sizes(entries, t, e);
        // older names keep their recorded-count bound at the new state
        assert forall|i: int|
            0 <= i < e implies planned_pair(entries, t, i).1 == entries[i].filename@ || (exists|
            c: int,
        |
            1 <= c <= count_of(
                state_after(entries, t, m),
                (planned_pair(entries, t, i).0, entries[i].filename@),
            ) && planned_pair(entries, t, i).1 == #[trigger] conflict_name(
                entries[i].filename@,
                c,
            )) by {
            if planned_pair(entries, t, i).1 != entries[i].filename@ {
                let c = choose|c: int|
                    1 <= c <= count_of(
                        state_after(entries, t, e),
                        (planned_pair(entries, t, i).0, entries[i].filename@),
                    ) && planned_pair(entries, t, i).1 == #[trigger] conflict_name(
                        entries[i].filename@,
                        c,
                    );
                lemma_counts_mono(
                    entries,
                    t,
                    e,
                    m,
                    (planned_pair(entries, t, i).0, entries[i].filename@),
                );
            }
        }
        // the new pair's own shape bound
        if st.assigned.contains(key) {
            let c = count_of(st, key) + 1;
            assert(count_of(state_after(entries, t, m), key) == c);
            assert(1 <= c <= count_of(state_after(entries, t, m), key));
            assert(pair.1 == conflict_name(fname, c));
        }
        // the new pair differs from every earlier pair
        assert forall|i: int| 0 <= i < e implies planned_pair(entries, t, i) != pair by {
            let pi = planned_pair(entries, t, i);
            lemma_assigned_stable(entries, t, i, e);
            if !st.assigned.contains(key) {
                if pi == pair {
                    assert(st.assigned[i] == key);
                    assert(st.assigned.contains(key));
                }
            } else {
                let c = count_of(st, key) + 1;
                if pi.0 == folder {
                    if pi.1 == entries[i].filename@ {
                        lemma_marker_free_not_conflict(entries[i].filename@, fname, c);
                        assert(pi.1 != pair.1);
                    } else {
                        let ci = choose|ci: int|
                            1 <= ci <= count_of(
                                state_after(entries, t, e),
                                (pi.0, entries[i].filename@),
                            ) && pi.1 == #[trigger] conflict_name(entries[i].filename@, ci);
                        if pi.1 == pair.1 {
                            lemma_conflict_injective(entries[i].filename@, ci, fname, c);
                            assert(entries[i].filename@ == fname);
                            assert((pi.0, entries[i].filename@) == key);
                            assert(ci <= count_of(st, key));
                            assert(false);
                        }
                    }
                }
            }
        }
    }
}

/// A conflict name of a slash-free, marker-free original is slash-free.
proof fn lemma_conflict_no_slash(f: Seq<char>, c: int)
    requires
        c >= 0,
        !f.contains('/'),
    ensures
        !conflict_name(f, c).contains('/'),
{
    lemma_conflict_decomp(f, c);
    lemma_last_dot_props(f);
    lemma_marker_chars();
    lemma_zp_len(c, n_digits(c));
    lemma_zp_digits(c, n_digits(c));
    let name = conflict_name(f, c);
    let k = ext_start(f);
    let d = dec_digits(c);
    assert forall|j: int| 0 <= j < name.len() implies name[j] != '/' by {
        assert(forall|x: int| 0 <= x < f.len() ==> f[x] != '/');
        if j < k {
            assert(name[j] == f[j]);
        } else if j < k + 9 {
            assert(name[j] == conflict_marker()[j - k]);
            assert(name[j] == name[j]);
        } else if j < k + 9 + d.len() {
            assert(name[j] == d[j - (k + 9)]);
            assert(is_digit(name[j]));
        } else {
            assert(name[j] == f[k + (j - (k + 9 + d.len()))]);
        }
    }
    if name.contains('/') {
        let j = choose|j: int| 0 <= j < name.len() && name[j] == '/';
    }
}

/// Joining slash-free folders and names is injective.
proof fn lemma_join_injective(fo1: Seq<char>, n1: Seq<char>, fo2: Seq<char>, n2: Seq<char>)
    requires
        !fo1.contains('/'),
        !fo2.contains('/'),
        !n1.contains('/'),
        !n2.contains('/'),
        join_path(fo1, n1) == join_path(fo2, n2),
    ensures
        fo1 == fo2,
        n1 == n2,
{
    let p = join_path(fo1, n1);
    assert(forall|x: int| 0 <= x < fo1.len() ==> fo1[x] != '/');
    assert(forall|x: int| 0 <= x < fo2.len() ==> fo2[x] != '/');
    assert(forall|x: int| 0 <= x < n1.len() ==> n1[x] != '/');
    assert(forall|x: int| 0 <= x < n2.len() ==> n2[x] != '/');
    if fo1.len() == 0 && fo2.len() == 0 {
    } else if fo1.len() == 0 {
        assert(p == n1);
        assert(p[fo2.len() as int] == '/');
        assert(false);
    } else if fo2.len() == 0 {
        assert(p == n2);
        assert(p[fo1.len() as int] == '/');
        assert(false);
    } else {
        assert(p[fo1.len() as int] == '/');
        assert(p[fo2.len() as int] == '/');
        assert(fo1.len() == fo2.len()) by {
            if fo1.len() < fo2.len() {
                assert(p[fo1.len() as int] == fo2[fo1.len() as int]);
            } else if fo2.len() < fo1.len() {
                assert(p[fo2.len() as int] == fo1[fo2.len() as int]);
            }
        }
        assert(fo1 =~= fo2) by {
            assert forall|x: int| 0 <= x < fo1.len() implies fo1[x] == fo2[x] by {
                assert(p[x] == fo1[x]);
                assert(p[x] == fo2[x]);
            }
        }
        assert(p == (fo1 + seq!['/']) + n1);
        assert(join_path(fo2, n2) == (fo2 + seq!['/']) + n2);
        assert((fo1 + seq!['/']).len() == fo1.len() + 1);
        assert((fo2 + seq!['/']).len() == fo2.len() + 1);
        assert(p.len() == fo1.len() + 1 + n1.len());
        assert(p.len() == fo2.len() + 1 + n2.len());
        assert(n1.len() == n2.len());
        assert(n1 =~= n2) by {
            assert forall|x: int| 0 <= x < n1.len() implies n1[x] == n2[x] by {
                assert(((fo1 + seq!['/']) + n1)[fo1.len() + 1 + x] == n1[x]);
                assert(((fo2 + seq!['/']) + n2)[fo2.len() + 1 + x] == n2[x]);
            }
        }
    }
}

/// No data loss: each entry receives its own destination path — over
/// marker-free, slash-free file names the planned destinations are
/// pairwise distinct, so entries map one-to-one onto destinations.
pub proof fn lemma_no_data_loss(entries: Seq<FileEntry>, t: int)
    requires
        forall|k: int| 0 <= k < entries.len() ==> !contains_marker(#[trigger] entries[k].filename@),
        forall|k: int|
            0 <= k < entries.len() ==> !(#[trigger] entries[k].filename@).contains('/'),
    ensures
        forall|i: int, j: int|
            0 <= i < j < entries.len() ==> target_of(entries, t, i) != target_of(entries, t, j),
{
    lemma_pairs_distinct(entries, t, entries.len() as int);
    assert forall|i: int, j: int| 0 <= i < j < entries.len() implies target_of(entries, t, i)
        != target_of(entries, t, j) by {
        let pi = planned_pair(entries, t, i);
        let pj = planned_pair(entries, t, j);
        lemma_target_join(entries, t, i);
        lemma_target_join(entries, t, j);
        lemma_folder_slash_free(entries, t, i);
        lemma_folder_slash_free(entries, t, j);
        lemma_name_slash_free(entries, t, i);
        lemma_name_slash_free(entries, t, j);
        if target_of(entries, t, i) == target_of(entries, t, j) {
            lemma_join_injective(pi.0, pi.1, pj.0, pj.1);
        }
    }
}

/// The planned folder of an entry is slash-free.
proof fn lemma_folder_slash_free(entries: Seq<FileEntry>, t: int, i: int)
    requires
        0 <= i < entries.len(),
        forall|k: int| 0 <= k < entries.len() ==> !contains_marker(#[trigger] entries[k].filename@),
    ensures
        !planned_pair(entries, t, i).0.contains('/'),
{
    lemma_pairs_distinct(entries, t, entries.len() as int);
    let folder = folder_of(entries, t, entries[i]);
    match entries[i].problem_number {
        None => {
            if folder.contains('/') {
                let j = choose|j: int| 0 <= j < folder.len() && folder[j] == '/';
            }
        },
        Some(n) => {
            lemma_structure_no_slash(nums_of(entries), t, '0', n);
        },
    }
}

/// The planned name of an entry with slash-free, marker-free file
/// names is slash-free.
proof fn lemma_name_slash_free(entries: Seq<FileEntry>, t: int, i: int)
    requires
        0 <= i < entries.len(),
        forall|k: int| 0 <= k < entries.len() ==> !contains_marker(#[trigger] entries[k].filename@),
        forall|k: int|
            0 <= k < entries.len() ==> !(#[trigger] entries[k].filename@).contains('/'),
    ensures
        !planned_pair(entries, t, i).1.contains('/'),
{
    lemma_pairs_distinct(entries, t, entries.len() as int);
    let pi = planned_pair(entries, t, i);
    if pi.1 != entries[i].filename@ {
        let c = choose|c: int|
            1 <= c <= count_of(
                state_after(entries, t, entries.len() as int),
                (pi.0, entries[i].filename@),
            ) && pi.1 == #[trigger] conflict_name(entries[i].filename@, c);
        lemma_conflict_no_slash(entries[i].filename@, c);
    }
}

/// If no entry before `m` with the given key ever collided, the key's
/// count is still zero at `m`.
proof fn lemma_count_zero(entries: Seq<FileEntry>, t: int, m: int, key: (Seq<char>, Seq<char>))
    requires
        0 <= m,
        forall|k: int|
            0 <= k < m && (#[trigger] folder_of(entries, t, entries[k]), entries[k].filename@)
                == key ==> !state_after(entries, t, k).assigned.contains(key),
    ensures
        count_of(state_after(entries, t, m), key) == 0,
    decreases m,
{
    if m > 0 {
        lemma_count_zero(entries, t, m - 1, key);
        lemma_planned_shape(entries, t, m - 1);
    }
}

/// Collision resolution is deterministic: of two entries with the same
/// file name bound for the same folder — and no third entry sharing
/// that key — the first keeps the name and the second receives the
/// first conflict name, whatever their distance in the input.
pub proof fn lemma_collision_determinism(entries: Seq<FileEntry>, t: int, i: int, j: int)
    requires
        forall|k: int| 0 <= k < entries.len() ==> !contains_marker(#[trigger] entries[k].filename@),
        0 <= i < j < entries.len(),
        folder_of(entries, t, entries[i]) == folder_of(entries, t, entries[j]),
        entries[i].filename@ == entries[j].filename@,
        forall|k: int|
            0 <= k < entries.len() && k != i && k != j ==> !(#[trigger] folder_of(
                entries,
                t,
                entries[k],
            ) == folder_of(entries, t, entries[i]) && entries[k].filename@
                == entries[i].filename@),
    ensures
        planned_pair(entries, t, i).1 == entries[i].filename@,
        planned_pair(entries, t, j).1 == conflict_name(entries[i].filename@, 1),
{
    let fo = folder_of(entries, t, entries[i]);
    let nm = entries[i].filename@;
    let key = (fo, nm);
    lemma_pairs_distinct(entries, t, i);
    lemma_state_sizes(entries, t, i);
    // entry i finds its name free
    assert(!state_after(entries, t, i).assigned.contains(key)) by {
        if state_after(entries, t, i).assigned.contains(key) {
            let k = choose|k: int|
                0 <= k < state_after(entries, t, i).assigned.len() && state_after(
                    entries,
                    t,
                    i,
                ).assigned[k] == key;
            lemma_assigned_stable(entries, t, k, i);
            let pk = planned_pair(entries, t, k);
            assert(pk == key);
            if pk.1 == entries[k].filename@ {
                assert(folder_of(entries, t, entries[k]) == fo);
                assert(entries[k].filename@ == nm);
                assert(false);
            } else {
                let c = choose|c: int|
                    1 <= c <= count_of(state_after(entries, t, i), (pk.0, entries[k].filename@))
                        && pk.1 == #[trigger] conflict_name(entries[k].filename@, c);
                lemma_conflict_has_marker(entries[k].filename@, c);
                assert(contains_marker(nm));
                assert(false);
            }
        }
    }
    lemma_planned_shape(entries, t, i);
    assert(planned_pair(entries, t, i).1 == nm);
    // the key's count is still zero when entry j is planned
    lemma_count_zero(entries, t, j, key);
    // entry j collides with entry i's kept name
    lemma_assigned_stable(entries, t, i, j);
    assert(state_after(entries, t, j).assigned[i] == (fo, nm));
    assert(state_after(entries, t, j).assigned.contains(key));
    lemma_planned_shape(entries, t, j);
}

} // verus!
