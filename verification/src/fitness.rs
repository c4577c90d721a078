use vstd::prelude::*;

use std::collections::{HashMap, HashSet};

use crate::models::{Assignment, Course, Day, GenerationRequest, Instructor, Room, SessionSlot};

verus! {

/// The score of a timetable that breaks no rule.
pub const BASE_SCORE: u64 = 10000;

/// Penalty for each session an instructor teaches beyond the daily limit.
pub const OVERLOAD_PENALTY: u64 = 200;

/// Penalty for each session placed in a room already taken at that slot.
pub const ROOM_CONFLICT_PENALTY: u64 = 500;

/// Penalty for each session of an instructor already teaching at that slot.
pub const INSTRUCTOR_CONFLICT_PENALTY: u64 = 500;

/// Penalty for each session whose room seats fewer than the course's students.
pub const CAPACITY_PENALTY: u64 = 300;

/// The room and slot that a session occupies.
pub open spec fn room_slot(a: Assignment) -> (u128, Day, usize) {
    (a.room_id, a.slot.day, a.slot.period)
}

/// The instructor and slot that a session occupies.
pub open spec fn instructor_slot(a: Assignment) -> (u128, Day, usize) {
    (a.instructor_id, a.slot.day, a.slot.period)
}

/// The instructor and day whose daily load a session counts towards.
pub open spec fn instructor_day(a: Assignment) -> (u128, Day) {
    (a.instructor_id, a.slot.day)
}

pub open spec fn room_slots(s: Seq<Assignment>) -> Seq<(u128, Day, usize)> {
    s.map_values(|a: Assignment| room_slot(a))
}

pub open spec fn instructor_slots(s: Seq<Assignment>) -> Seq<(u128, Day, usize)> {
    s.map_values(|a: Assignment| instructor_slot(a))
}

pub open spec fn instructor_days(s: Seq<Assignment>) -> Seq<(u128, Day)> {
    s.map_values(|a: Assignment| instructor_day(a))
}

/// The key at position `i` already occurs earlier in `keys`.
pub open spec fn seen_before<K>(keys: Seq<K>, i: int) -> bool {
    exists|j: int| 0 <= j < i && keys[j] == keys[i]
}

/// The number of positions whose key already occurs earlier: the number of
/// insertions into a set of keys that find the key present.
pub open spec fn repeat_count<K>(keys: Seq<K>) -> nat
    decreases keys.len(),
{
    if keys.len() == 0 {
        0
    } else {
        repeat_count(keys.drop_last()) + if seen_before(keys, keys.len() - 1) {
            1nat
        } else {
            0nat
        }
    }
}

/// How often `k` occurs in `keys`.
pub open spec fn key_count<K>(keys: Seq<K>, k: K) -> nat
    decreases keys.len(),
{
    if keys.len() == 0 {
        0
    } else {
        key_count(keys.drop_last(), k) + if keys.last() == k {
            1nat
        } else {
            0nat
        }
    }
}

/// The last position holding `id`, or -1: a map filled from `ids` in order
/// keeps the last entry for each identifier.
pub open spec fn last_index_of(ids: Seq<u128>, id: u128) -> int
    decreases ids.len(),
{
    if ids.len() == 0 {
        -1
    } else if ids.last() == id {
        ids.len() - 1
    } else {
        last_index_of(ids.drop_last(), id)
    }
}

pub open spec fn course_ids(cs: Seq<Course>) -> Seq<u128> {
    cs.map_values(|c: Course| c.id)
}

pub open spec fn room_ids(rs: Seq<Room>) -> Seq<u128> {
    rs.map_values(|r: Room| r.id)
}

pub open spec fn instructor_ids(is: Seq<Instructor>) -> Seq<u128> {
    is.map_values(|i: Instructor| i.id)
}

/// The session's room, when both the course and the room are known, seats
/// fewer students than the course has.
pub open spec fn over_capacity(a: Assignment, courses: Seq<Course>, rooms: Seq<Room>) -> bool {
    let ci = last_index_of(course_ids(courses), a.course_id);
    let ri = last_index_of(room_ids(rooms), a.room_id);
    0 <= ci && 0 <= ri && rooms[ri].capacity < courses[ci].student_count
}

pub open spec fn capacity_violations(s: Seq<Assignment>, courses: Seq<Course>, rooms: Seq<Room>) -> nat
    decreases s.len(),
{
    if s.len() == 0 {
        0
    } else {
        capacity_violations(s.drop_last(), courses, rooms) + if over_capacity(
            s.last(),
            courses,
            rooms,
        ) {
            1nat
        } else {
            0nat
        }
    }
}

/// Sessions beyond the daily limit of the instructor `id`, when that
/// instructor is known, for a daily load of `load` sessions.
pub open spec fn excess_load(load: nat, id: u128, instructors: Seq<Instructor>) -> nat {
    let ii = last_index_of(instructor_ids(instructors), id);
    if 0 <= ii && load > instructors[ii].max_sessions_per_day {
        (load - instructors[ii].max_sessions_per_day) as nat
    } else {
        0
    }
}

/// The excess loads of the distinct (instructor, day) pairs among the first
/// `n` keys, each pair counted once with its load over all of `keys`.
pub open spec fn overload_upto(keys: Seq<(u128, Day)>, instructors: Seq<Instructor>, n: nat) -> nat
    decreases n,
{
    if n == 0 {
        0
    } else {
        let i = n - 1;
        overload_upto(keys, instructors, (n - 1) as nat) + if seen_before(keys, i) {
            0nat
        } else {
            excess_load(key_count(keys, keys[i]), keys[i].0, instructors)
        }
    }
}

/// Sessions taught beyond the daily limits, over all instructors and days.
pub open spec fn total_overload(s: Seq<Assignment>, instructors: Seq<Instructor>) -> nat {
    overload_upto(instructor_days(s), instructors, s.len())
}

pub open spec fn weighted_penalty(overload: int, room_clashes: int, instructor_clashes: int, over_cap: int) -> int {
    OVERLOAD_PENALTY * overload + ROOM_CONFLICT_PENALTY * room_clashes
        + INSTRUCTOR_CONFLICT_PENALTY * instructor_clashes + CAPACITY_PENALTY * over_cap
}

/// The total penalty of a timetable.
pub open spec fn penalty(
    s: Seq<Assignment>,
    courses: Seq<Course>,
    instructors: Seq<Instructor>,
    rooms: Seq<Room>,
) -> int {
    weighted_penalty(
        total_overload(s, instructors) as int,
        repeat_count(room_slots(s)) as int,
        repeat_count(instructor_slots(s)) as int,
        capacity_violations(s, courses, rooms) as int,
    )
}

pub open spec fn score_after(p: int) -> int {
    if p >= BASE_SCORE {
        0
    } else {
        BASE_SCORE - p
    }
}

/// The fitness of a timetable: the base score less the penalties, and never
/// below zero.
pub open spec fn fitness_score(
    s: Seq<Assignment>,
    courses: Seq<Course>,
    instructors: Seq<Instructor>,
    rooms: Seq<Room>,
) -> int {
    score_after(penalty(s, courses, instructors, rooms))
}

pub open spec fn request_fitness(s: Seq<Assignment>, request: GenerationRequest) -> int {
    fitness_score(s, request.courses@, request.instructors@, request.rooms@)
}

proof fn lemma_repeat_count_step<K>(keys: Seq<K>, i: int)
    requires
        0 <= i < keys.len(),
    ensures
        repeat_count(keys.take(i + 1)) == repeat_count(keys.take(i)) + if seen_before(keys, i) {
            1nat
        } else {
            0nat
        },
{
    let t = keys.take(i + 1);
    assert(t.drop_last() =~= keys.take(i));
    assert(seen_before(t, i) == seen_before(keys, i)) by {
        if seen_before(keys, i) {
            let j = choose|j: int| 0 <= j < i && keys[j] == keys[i];
            assert(t[j] == t[i]);
        }
        if seen_before(t, i) {
            let j = choose|j: int| 0 <= j < i && t[j] == t[i];
            assert(keys[j] == keys[i]);
        }
    }
}

proof fn lemma_key_count_step<K>(keys: Seq<K>, k: K, j: int)
    requires
        0 <= j < keys.len(),
    ensures
        key_count(keys.take(j + 1), k) == key_count(keys.take(j), k) + if keys[j] == k {
            1nat
        } else {
            0nat
        },
{
    assert(keys.take(j + 1).drop_last() =~= keys.take(j));
}

proof fn lemma_capacity_step(s: Seq<Assignment>, courses: Seq<Course>, rooms: Seq<Room>, i: int)
    requires
        0 <= i < s.len(),
    ensures
        capacity_violations(s.take(i + 1), courses, rooms) == capacity_violations(
            s.take(i),
            courses,
            rooms,
        ) + if over_capacity(s[i], courses, rooms) {
            1nat
        } else {
            0nat
        },
{
    assert(s.take(i + 1).drop_last() =~= s.take(i));
}

proof fn lemma_last_index_step(ids: Seq<u128>, id: u128, i: int)
    requires
        0 < i <= ids.len(),
    ensures
        ids[i - 1] == id ==> last_index_of(ids.take(i), id) == i - 1,
        ids[i - 1] != id ==> last_index_of(ids.take(i), id) == last_index_of(ids.take(i - 1), id),
{
    assert(ids.take(i).drop_last() =~= ids.take(i - 1));
}

proof fn lemma_product_bound(i: int, n: int)
    requires
        0 <= i <= n,
        n <= usize::MAX,
    ensures
        i * n <= usize::MAX * usize::MAX,
        usize::MAX * usize::MAX < u128::MAX,
{
    assert(i * n <= n * n) by (nonlinear_arith)
        requires
            0 <= i <= n,
    ;
    assert(n * n <= usize::MAX * usize::MAX) by (nonlinear_arith)
        requires
            0 <= n <= usize::MAX,
    ;
    assert(usize::MAX * usize::MAX <= 0xffff_ffff_ffff_ffffint * 0xffff_ffff_ffff_ffffint)
        by (nonlinear_arith)
        requires
            usize::MAX <= 0xffff_ffff_ffff_ffffint,
    ;
}

proof fn lemma_repeat_count_positive<K>(keys: Seq<K>, i: int)
    requires
        0 <= i < keys.len(),
        seen_before(keys, i),
    ensures
        repeat_count(keys) >= 1,
    decreases keys.len(),
{
    if i < keys.len() - 1 {
        let d = keys.drop_last();
        let j = choose|j: int| 0 <= j < i && keys[j] == keys[i];
        assert(d[j] == d[i]);
        lemma_repeat_count_positive(d, i);
    }
}

proof fn lemma_repeat_count_zero<K>(keys: Seq<K>)
    requires
        forall|i: int| 0 <= i < keys.len() ==> !seen_before(keys, i),
    ensures
        repeat_count(keys) == 0,
    decreases keys.len(),
{
    if keys.len() > 0 {
        let d = keys.drop_last();
        assert forall|i: int| 0 <= i < d.len() implies !seen_before(d, i) by {
            if seen_before(d, i) {
                let j = choose|j: int| 0 <= j < i && d[j] == d[i];
                assert(keys[j] == keys[i]);
                assert(!seen_before(keys, i));
            }
        }
        lemma_repeat_count_zero(d);
    }
}

proof fn lemma_capacity_positive(s: Seq<Assignment>, courses: Seq<Course>, rooms: Seq<Room>, i: int)
    requires
        0 <= i < s.len(),
        over_capacity(s[i], courses, rooms),
    ensures
        capacity_violations(s, courses, rooms) >= 1,
    decreases s.len(),
{
    if i < s.len() - 1 {
        assert(s.drop_last()[i] == s[i]);
        lemma_capacity_positive(s.drop_last(), courses, rooms, i);
    }
}

proof fn lemma_capacity_zero(s: Seq<Assignment>, courses: Seq<Course>, rooms: Seq<Room>)
    requires
        forall|i: int| 0 <= i < s.len() ==> !over_capacity(#[trigger] s[i], courses, rooms),
    ensures
        capacity_violations(s, courses, rooms) == 0,
    decreases s.len(),
{
    if s.len() > 0 {
        let d = s.drop_last();
        assert forall|i: int| 0 <= i < d.len() implies !over_capacity(#[trigger] d[i], courses, rooms) by {
            assert(d[i] == s[i]);
        }
        lemma_capacity_zero(d, courses, rooms);
    }
}

proof fn lemma_first_occurrence<K>(keys: Seq<K>, i: int) -> (i0: int)
    requires
        0 <= i < keys.len(),
    ensures
        0 <= i0 <= i,
        keys[i0] == keys[i],
        !seen_before(keys, i0),
    decreases i,
{
    if seen_before(keys, i) {
        let j = choose|j: int| 0 <= j < i && keys[j] == keys[i];
        lemma_first_occurrence(keys, j)
    } else {
        i
    }
}

proof fn lemma_overload_includes(keys: Seq<(u128, Day)>, instructors: Seq<Instructor>, n: nat, i: int)
    requires
        0 <= i < n <= keys.len(),
        !seen_before(keys, i),
    ensures
        overload_upto(keys, instructors, n) >= excess_load(key_count(keys, keys[i]), keys[i].0, instructors),
    decreases n,
{
    if i < n - 1 {
        lemma_overload_includes(keys, instructors, (n - 1) as nat, i);
    }
}

proof fn lemma_overload_zero(keys: Seq<(u128, Day)>, instructors: Seq<Instructor>, n: nat)
    requires
        n <= keys.len(),
        forall|i: int| 0 <= i < n ==> excess_load(key_count(keys, #[trigger] keys[i]), keys[i].0, instructors) == 0,
    ensures
        overload_upto(keys, instructors, n) == 0,
    decreases n,
{
    if n > 0 {
        lemma_overload_zero(keys, instructors, (n - 1) as nat);
    }
}

/// Two sessions in the same room at the same day and period cost the
/// timetable at least the room-conflict penalty.
pub proof fn lemma_room_conflict_is_penalized(
    s: Seq<Assignment>,
    courses: Seq<Course>,
    instructors: Seq<Instructor>,
    rooms: Seq<Room>,
    i: int,
    j: int,
)
    requires
        0 <= i < j < s.len(),
        room_slot(s[i]) == room_slot(s[j]),
    ensures
        fitness_score(s, courses, instructors, rooms) <= BASE_SCORE - ROOM_CONFLICT_PENALTY,
{
    let keys = room_slots(s);
    assert(keys[i] == keys[j]);
    lemma_repeat_count_positive(keys, j);
}

/// Two sessions of one instructor at the same day and period cost the
/// timetable at least the instructor-conflict penalty.
pub proof fn lemma_instructor_conflict_is_penalized(
    s: Seq<Assignment>,
    courses: Seq<Course>,
    instructors: Seq<Instructor>,
    rooms: Seq<Room>,
    i: int,
    j: int,
)
    requires
        0 <= i < j < s.len(),
        instructor_slot(s[i]) == instructor_slot(s[j]),
    ensures
        fitness_score(s, courses, instructors, rooms) <= BASE_SCORE - INSTRUCTOR_CONFLICT_PENALTY,
{
    let keys = instructor_slots(s);
    assert(keys[i] == keys[j]);
    lemma_repeat_count_positive(keys, j);
}

/// A session in a room too small for its course costs the timetable at least
/// the capacity penalty.
pub proof fn lemma_capacity_violation_is_penalized(
    s: Seq<Assignment>,
    courses: Seq<Course>,
    instructors: Seq<Instructor>,
    rooms: Seq<Room>,
    i: int,
)
    requires
        0 <= i < s.len(),
        0 <= last_index_of(course_ids(courses), s[i].course_id),
        0 <= last_index_of(room_ids(rooms), s[i].room_id),
        rooms[last_index_of(room_ids(rooms), s[i].room_id)].capacity < courses[last_index_of(
            course_ids(courses),
            s[i].course_id,
        )].student_count,
    ensures
        fitness_score(s, courses, instructors, rooms) <= BASE_SCORE - CAPACITY_PENALTY,
{
    lemma_capacity_positive(s, courses, rooms, i);
}

/// Only a room that seats fewer students than its course has counts as too
/// small: when every session's room (where the room and the course are known)
/// seats at least as many students as its course has, no session is counted.
pub proof fn lemma_roomy_sessions_are_not_counted(
    s: Seq<Assignment>,
    courses: Seq<Course>,
    rooms: Seq<Room>,
)
    requires
        forall|i: int|
            0 <= i < s.len() && 0 <= last_index_of(course_ids(courses), #[trigger] s[i].course_id)
                && 0 <= last_index_of(room_ids(rooms), s[i].room_id) ==> rooms[last_index_of(
                room_ids(rooms),
                s[i].room_id,
            )].capacity >= courses[last_index_of(course_ids(courses), s[i].course_id)].student_count,
    ensures
        capacity_violations(s, courses, rooms) == 0,
{
    assert forall|i: int| 0 <= i < s.len() implies !over_capacity(#[trigger] s[i], courses, rooms) by {
        assert(s[i].course_id == s[i].course_id);
    }
    lemma_capacity_zero(s, courses, rooms);
}

/// Adding a session adds one to the count of rooms too small exactly when the
/// session's room and course are both known and the room seats fewer students
/// than the course has.
pub proof fn lemma_capacity_count_of_added_session(
    s: Seq<Assignment>,
    x: Assignment,
    courses: Seq<Course>,
    rooms: Seq<Room>,
)
    ensures
        capacity_violations(s.push(x), courses, rooms) == capacity_violations(s, courses, rooms) + if 0
            <= last_index_of(course_ids(courses), x.course_id) && 0 <= last_index_of(
            room_ids(rooms),
            x.room_id,
        ) && rooms[last_index_of(room_ids(rooms), x.room_id)].capacity < courses[last_index_of(
            course_ids(courses),
            x.course_id,
        )].student_count {
            1int
        } else {
            0int
        },
{
    assert(s.push(x).drop_last() =~= s);
}

/// An instructor given more sessions on a day than their daily limit costs
/// the timetable the overload penalty for every session beyond it.
pub proof fn lemma_overload_is_penalized(
    s: Seq<Assignment>,
    courses: Seq<Course>,
    instructors: Seq<Instructor>,
    rooms: Seq<Room>,
    i: int,
)
    requires
        0 <= i < s.len(),
    ensures
        fitness_score(s, courses, instructors, rooms) <= score_after(
            OVERLOAD_PENALTY * excess_load(
                key_count(instructor_days(s), instructor_day(s[i])),
                s[i].instructor_id,
                instructors,
            ),
        ),
{
    let keys = instructor_days(s);
    let i0 = lemma_first_occurrence(keys, i);
    assert(keys[i] == instructor_day(s[i]));
    lemma_overload_includes(keys, instructors, s.len(), i0);
}

/// A timetable that breaks no rule (no shared room slot, no shared
/// instructor slot, no room too small, no instructor over the daily limit)
/// has the full base score.
pub proof fn lemma_clean_timetable_scores_full(
    s: Seq<Assignment>,
    courses: Seq<Course>,
    instructors: Seq<Instructor>,
    rooms: Seq<Room>,
)
    requires
        forall|i: int, j: int|
            0 <= i < j < s.len() ==> room_slot(#[trigger] s[i]) != room_slot(#[trigger] s[j]),
        forall|i: int, j: int|
            0 <= i < j < s.len() ==> instructor_slot(#[trigger] s[i]) != instructor_slot(
                #[trigger] s[j],
            ),
        forall|i: int|
            0 <= i < s.len() && 0 <= last_index_of(course_ids(courses), #[trigger] s[i].course_id)
                && 0 <= last_index_of(room_ids(rooms), s[i].room_id) ==> rooms[last_index_of(
                room_ids(rooms),
                s[i].room_id,
            )].capacity >= courses[last_index_of(course_ids(courses), s[i].course_id)].student_count,
        forall|i: int|
            0 <= i < s.len() ==> excess_load(
                key_count(instructor_days(s), instructor_day(#[trigger] s[i])),
                s[i].instructor_id,
                instructors,
            ) == 0,
    ensures
        fitness_score(s, courses, instructors, rooms) == BASE_SCORE,
{
    let rk = room_slots(s);
    let ik = instructor_slots(s);
    let dk = instructor_days(s);
    assert forall|i: int| 0 <= i < rk.len() implies !seen_before(rk, i) by {
        if seen_before(rk, i) {
            let j = choose|j: int| 0 <= j < i && rk[j] == rk[i];
            assert(room_slot(s[j]) == room_slot(s[i]));
        }
    }
    assert forall|i: int| 0 <= i < ik.len() implies !seen_before(ik, i) by {
        if seen_before(ik, i) {
            let j = choose|j: int| 0 <= j < i && ik[j] == ik[i];
            assert(instructor_slot(s[j]) == instructor_slot(s[i]));
        }
    }
    lemma_repeat_count_zero(rk);
    lemma_repeat_count_zero(ik);
    lemma_roomy_sessions_are_not_counted(s, courses, rooms);
    assert forall|i: int| 0 <= i < s.len() implies excess_load(key_count(dk, #[trigger] dk[i]), dk[i].0, instructors) == 0 by {
        assert(dk[i] == instructor_day(s[i]));
    }
    lemma_overload_zero(dk, instructors, s.len());
}

proof fn lemma_excess_monotone(l1: nat, l2: nat, id: u128, instructors: Seq<Instructor>)
    requires
        l1 <= l2,
    ensures
        excess_load(l1, id, instructors) <= excess_load(l2, id, instructors),
{
}

proof fn lemma_overload_grows_with_push(
    keys: Seq<(u128, Day)>,
    k: (u128, Day),
    instructors: Seq<Instructor>,
    n: nat,
)
    requires
        n <= keys.len(),
    ensures
        overload_upto(keys.push(k), instructors, n) >= overload_upto(keys, instructors, n),
    decreases n,
{
    if n > 0 {
        let i = n - 1;
        let p = keys.push(k);
        lemma_overload_grows_with_push(keys, k, instructors, (n - 1) as nat);
        assert(p.drop_last() =~= keys);
        assert(p[i] == keys[i]);
        assert(seen_before(p, i) == seen_before(keys, i)) by {
            if seen_before(keys, i) {
                let j = choose|j: int| 0 <= j < i && keys[j] == keys[i];
                assert(p[j] == p[i]);
            }
            if seen_before(p, i) {
                let j = choose|j: int| 0 <= j < i && p[j] == p[i];
                assert(keys[j] == keys[i]);
            }
        }
        lemma_excess_monotone(key_count(keys, keys[i]), key_count(p, p[i]), keys[i].0, instructors);
    }
}

/// Adding a session to a timetable never raises its score.
pub proof fn lemma_adding_session_never_raises_fitness(
    s: Seq<Assignment>,
    x: Assignment,
    courses: Seq<Course>,
    instructors: Seq<Instructor>,
    rooms: Seq<Room>,
)
    ensures
        fitness_score(s.push(x), courses, instructors, rooms) <= fitness_score(
            s,
            courses,
            instructors,
            rooms,
        ),
{
    let t = s.push(x);
    assert(t.drop_last() =~= s);
    assert(room_slots(t).drop_last() =~= room_slots(s));
    assert(instructor_slots(t).drop_last() =~= instructor_slots(s));
    assert(instructor_days(t) =~= instructor_days(s).push(instructor_day(x)));
    lemma_overload_grows_with_push(instructor_days(s), instructor_day(x), instructors, s.len());
    assert(overload_upto(instructor_days(t), instructors, t.len()) >= overload_upto(
        instructor_days(t),
        instructors,
        s.len(),
    ));
}

/// A sum over the positions of `keys` of `f(key, rank)`, where the rank of a
/// position counts the occurrences of its key up to and including it.
pub open spec fn rank_sum<K>(keys: Seq<K>, f: spec_fn(K, nat) -> int) -> int
    decreases keys.len(),
{
    if keys.len() == 0 {
        0
    } else {
        rank_sum(keys.drop_last(), f) + f(keys.last(), key_count(keys, keys.last()))
    }
}

proof fn lemma_key_count_remove<K>(keys: Seq<K>, j: int, q: K)
    requires
        0 <= j < keys.len(),
    ensures
        key_count(keys.remove(j), q) + if keys[j] == q {
            1int
        } else {
            0int
        } == key_count(keys, q),
    decreases keys.len(),
{
    if j == keys.len() - 1 {
        assert(keys.remove(j) =~= keys.drop_last());
    } else {
        let d = keys.drop_last();
        assert(keys.remove(j).drop_last() =~= d.remove(j));
        assert(keys.remove(j).last() == keys.last());
        lemma_key_count_remove(d, j, q);
    }
}

proof fn lemma_key_count_multiset<K>(keys: Seq<K>, q: K)
    ensures
        key_count(keys, q) == keys.to_multiset().count(q),
    decreases keys.len(),
{
    broadcast use vstd::multiset::group_multiset_axioms;

    if keys.len() > 0 {
        let d = keys.drop_last();
        lemma_key_count_multiset(d, q);
        assert(d.push(keys.last()) =~= keys);
        d.to_multiset_ensures();
        assert(d.push(keys.last()).to_multiset() =~= d.to_multiset().insert(keys.last()));
    } else {
        keys.to_multiset_ensures();
        assert(!keys.contains(q));
    }
}

proof fn lemma_rank_sum_remove<K>(keys: Seq<K>, f: spec_fn(K, nat) -> int, j: int)
    requires
        0 <= j < keys.len(),
    ensures
        rank_sum(keys, f) == rank_sum(keys.remove(j), f) + f(keys[j], key_count(keys, keys[j])),
    decreases keys.len(),
{
    if j == keys.len() - 1 {
        assert(keys.remove(j) =~= keys.drop_last());
    } else {
        let d = keys.drop_last();
        let l = keys.last();
        let kj = keys[j];
        let r = keys.remove(j);
        assert(r.drop_last() =~= d.remove(j));
        assert(r.last() == l);
        assert(d[j] == kj);
        lemma_rank_sum_remove(d, f, j);
        assert(keys.drop_last() == d);
        lemma_key_count_remove(keys, j, l);
        assert(d.push(l) =~= keys);
        assert(key_count(keys, kj) == key_count(d, kj) + if l == kj {
            1nat
        } else {
            0nat
        });
    }
}

proof fn lemma_rank_sum_permutation<K>(s1: Seq<K>, s2: Seq<K>, f: spec_fn(K, nat) -> int)
    requires
        s1.to_multiset() == s2.to_multiset(),
    ensures
        rank_sum(s1, f) == rank_sum(s2, f),
    decreases s1.len(),
{
    broadcast use vstd::multiset::group_multiset_axioms;

    s1.to_multiset_ensures();
    s2.to_multiset_ensures();
    if s1.len() > 0 {
        let l = s1.last();
        let d = s1.drop_last();
        assert(d.push(l) =~= s1);
        d.to_multiset_ensures();
        assert(s1.contains(l)) by {
            assert(s1[s1.len() - 1] == l);
        }
        assert(s2.to_multiset().count(l) > 0);
        assert(s2.contains(l));
        let j = choose|j: int| 0 <= j < s2.len() && s2[j] == l;
        assert(s2.remove(j).to_multiset() =~= s2.to_multiset().remove(l));
        assert(d.to_multiset() =~= s1.to_multiset().remove(l));
        lemma_rank_sum_permutation(d, s2.remove(j), f);
        lemma_rank_sum_remove(s2, f, j);
        lemma_key_count_multiset(s1, l);
        lemma_key_count_multiset(s2, l);
    }
}

proof fn lemma_map_permutation<A, B>(s1: Seq<A>, s2: Seq<A>, g: spec_fn(A) -> B)
    requires
        s1.to_multiset() == s2.to_multiset(),
    ensures
        s1.map_values(g).to_multiset() == s2.map_values(g).to_multiset(),
    decreases s1.len(),
{
    broadcast use vstd::multiset::group_multiset_axioms;

    s1.to_multiset_ensures();
    s2.to_multiset_ensures();
    if s1.len() > 0 {
        let l = s1.last();
        let d = s1.drop_last();
        assert(d.push(l) =~= s1);
        d.to_multiset_ensures();
        assert(s1.contains(l)) by {
            assert(s1[s1.len() - 1] == l);
        }
        assert(s2.to_multiset().count(l) > 0);
        let j = choose|j: int| 0 <= j < s2.len() && s2[j] == l;
        assert(s2.remove(j).to_multiset() =~= s2.to_multiset().remove(l));
        assert(d.to_multiset() =~= s1.to_multiset().remove(l));
        lemma_map_permutation(d, s2.remove(j), g);
        let m2 = s2.map_values(g);
        assert(m2.remove(j) =~= s2.remove(j).map_values(g));
        m2.to_multiset_ensures();
        assert(m2.remove(j).to_multiset() =~= m2.to_multiset().remove(g(l)));
        assert(s1.map_values(g) =~= d.map_values(g).push(g(l)));
        d.map_values(g).to_multiset_ensures();
        assert(m2.contains(g(l))) by {
            assert(m2[j] == g(l));
        }
        assert(m2.to_multiset().count(g(l)) > 0);
        assert(d.map_values(g).push(g(l)).to_multiset() =~= d.map_values(g).to_multiset().insert(g(l)));
        assert(s1.map_values(g).to_multiset() =~= m2.to_multiset());
    } else {
        assert(s2.len() == 0);
        assert(s1.map_values(g) =~= s2.map_values(g));
    }
}

proof fn lemma_key_count_positive<K>(keys: Seq<K>, q: K)
    ensures
        key_count(keys, q) >= 1 <==> exists|j: int| 0 <= j < keys.len() && keys[j] == q,
    decreases keys.len(),
{
    if keys.len() > 0 {
        let d = keys.drop_last();
        lemma_key_count_positive(d, q);
        if exists|j: int| 0 <= j < d.len() && d[j] == q {
            let j = choose|j: int| 0 <= j < d.len() && d[j] == q;
            assert(keys[j] == q);
        }
        if exists|j: int| 0 <= j < keys.len() && keys[j] == q {
            let j = choose|j: int| 0 <= j < keys.len() && keys[j] == q;
            if j < d.len() {
                assert(d[j] == q);
            }
        }
    }
}

pub open spec fn repeat_weight<K>() -> spec_fn(K, nat) -> int {
    |k: K, c: nat| if c >= 2 { 1int } else { 0int }
}

proof fn lemma_repeat_count_is_rank_sum<K>(keys: Seq<K>)
    ensures
        repeat_count(keys) == rank_sum(keys, repeat_weight::<K>()),
    decreases keys.len(),
{
    if keys.len() > 0 {
        let d = keys.drop_last();
        let l = keys.last();
        lemma_repeat_count_is_rank_sum(d);
        assert(d.push(l) =~= keys);
        lemma_key_count_positive(d, l);
        if seen_before(keys, keys.len() - 1) {
            let j = choose|j: int| 0 <= j < keys.len() - 1 && #[trigger] keys[j] == keys[keys.len() - 1];
            assert(d[j] == l);
        }
        if exists|j: int| 0 <= j < d.len() && d[j] == l {
            let j = choose|j: int| 0 <= j < d.len() && d[j] == l;
            assert(keys[j] == keys[keys.len() - 1]);
        }
    }
}

pub open spec fn capacity_weight(courses: Seq<Course>, rooms: Seq<Room>) -> spec_fn(Assignment, nat) -> int {
    |a: Assignment, c: nat| if over_capacity(a, courses, rooms) { 1int } else { 0int }
}

proof fn lemma_capacity_is_rank_sum(s: Seq<Assignment>, courses: Seq<Course>, rooms: Seq<Room>)
    ensures
        capacity_violations(s, courses, rooms) == rank_sum(s, capacity_weight(courses, rooms)),
    decreases s.len(),
{
    if s.len() > 0 {
        lemma_capacity_is_rank_sum(s.drop_last(), courses, rooms);
    }
}

pub open spec fn overload_weight(instructors: Seq<Instructor>) -> spec_fn((u128, Day), nat) -> int {
    |k: (u128, Day), c: nat|
        excess_load(c, k.0, instructors) - if c >= 1 {
            excess_load((c - 1) as nat, k.0, instructors) as int
        } else {
            0int
        }
}

proof fn lemma_overload_prefix_step(
    keys: Seq<(u128, Day)>,
    instructors: Seq<Instructor>,
    n: nat,
)
    requires
        keys.len() > 0,
        n <= keys.len() - 1,
    ensures
        overload_upto(keys, instructors, n) == overload_upto(keys.drop_last(), instructors, n) + if exists|
            i: int,
        | 0 <= i < n && keys[i] == keys.last() {
            excess_load(key_count(keys, keys.last()), keys.last().0, instructors) - excess_load(
                key_count(keys.drop_last(), keys.last()),
                keys.last().0,
                instructors,
            )
        } else {
            0int
        },
    decreases n,
{
    let d = keys.drop_last();
    let l = keys.last();
    assert(d.push(l) =~= keys);
    if n > 0 {
        let i = n - 1;
        lemma_overload_prefix_step(keys, instructors, (n - 1) as nat);
        assert(keys[i] == d[i]);
        assert(seen_before(keys, i) == seen_before(d, i)) by {
            if seen_before(keys, i) {
                let j = choose|j: int| 0 <= j < i && keys[j] == keys[i];
                assert(d[j] == d[i]);
            }
            if seen_before(d, i) {
                let j = choose|j: int| 0 <= j < i && d[j] == d[i];
                assert(keys[j] == keys[i]);
            }
        }
        if keys[i] == l {
            if seen_before(keys, i) {
                let j = choose|j: int| 0 <= j < i && keys[j] == keys[i];
                assert(keys[j] == l);
            } else {
                assert(!exists|m: int| 0 <= m < i && keys[m] == l);
            }
        }
        if exists|m: int| 0 <= m < n - 1 && keys[m] == l {
            let m = choose|m: int| 0 <= m < n - 1 && keys[m] == l;
            assert(0 <= m < n && keys[m] == l);
        }
        if exists|m: int| 0 <= m < n && keys[m] == l {
            let m = choose|m: int| 0 <= m < n && keys[m] == l;
            if m < n - 1 {
                assert(exists|m2: int| 0 <= m2 < n - 1 && keys[m2] == l);
            }
        }
    }
}

proof fn lemma_overload_is_rank_sum(keys: Seq<(u128, Day)>, instructors: Seq<Instructor>)
    ensures
        overload_upto(keys, instructors, keys.len()) == rank_sum(keys, overload_weight(instructors)),
    decreases keys.len(),
{
    if keys.len() > 0 {
        let d = keys.drop_last();
        let l = keys.last();
        let n = (keys.len() - 1) as nat;
        lemma_overload_is_rank_sum(d, instructors);
        lemma_overload_prefix_step(keys, instructors, n);
        assert(d.push(l) =~= keys);
        assert(key_count(keys, l) == key_count(d, l) + 1);
        lemma_key_count_positive(d, l);
        if seen_before(keys, n as int) {
            let j = choose|j: int| 0 <= j < n && keys[j] == keys[n as int];
            assert(keys[j] == l);
        } else {
            if exists|j: int| 0 <= j < d.len() && d[j] == l {
                let j = choose|j: int| 0 <= j < d.len() && d[j] == l;
                assert(keys[j] == keys[n as int]);
            }
            assert(key_count(d, l) == 0);
        }
    }
}

/// The score of a timetable does not depend on the order of its sessions:
/// two timetables holding the same sessions score the same.
pub proof fn lemma_fitness_ignores_session_order(
    s1: Seq<Assignment>,
    s2: Seq<Assignment>,
    courses: Seq<Course>,
    instructors: Seq<Instructor>,
    rooms: Seq<Room>,
)
    requires
        s1.to_multiset() == s2.to_multiset(),
    ensures
        fitness_score(s1, courses, instructors, rooms) == fitness_score(s2, courses, instructors, rooms),
{
    s1.to_multiset_ensures();
    s2.to_multiset_ensures();
    let rs = |a: Assignment| room_slot(a);
    let is = |a: Assignment| instructor_slot(a);
    let ds = |a: Assignment| instructor_day(a);
    lemma_map_permutation(s1, s2, rs);
    lemma_map_permutation(s1, s2, is);
    lemma_map_permutation(s1, s2, ds);
    lemma_repeat_count_is_rank_sum(room_slots(s1));
    lemma_repeat_count_is_rank_sum(room_slots(s2));
    lemma_rank_sum_permutation(room_slots(s1), room_slots(s2), repeat_weight::<(u128, Day, usize)>());
    lemma_repeat_count_is_rank_sum(instructor_slots(s1));
    lemma_repeat_count_is_rank_sum(instructor_slots(s2));
    lemma_rank_sum_permutation(
        instructor_slots(s1),
        instructor_slots(s2),
        repeat_weight::<(u128, Day, usize)>(),
    );
    lemma_capacity_is_rank_sum(s1, courses, rooms);
    lemma_capacity_is_rank_sum(s2, courses, rooms);
    lemma_rank_sum_permutation(s1, s2, capacity_weight(courses, rooms));
    lemma_overload_is_rank_sum(instructor_days(s1), instructors);
    lemma_overload_is_rank_sum(instructor_days(s2), instructors);
    lemma_rank_sum_permutation(instructor_days(s1), instructor_days(s2), overload_weight(instructors));
}

/// The identifiers of the given records, in order.
fn collect_course_ids(courses: &Vec<Course>) -> (r: Vec<u128>)
    ensures
        r@ == course_ids(courses@),
{
    let mut r: Vec<u128> = Vec::new();
    let mut i: usize = 0;
    while i < courses.len()
        invariant
            i <= courses.len(),
            r@ == course_ids(courses@).take(i as int),
        decreases courses.len() - i,
    {
        r.push(courses[i].id);
        i = i + 1;
        assert(r@ =~= course_ids(courses@).take(i as int));
    }
    assert(course_ids(courses@).take(i as int) =~= course_ids(courses@));
    r
}

fn collect_room_ids(rooms: &Vec<Room>) -> (r: Vec<u128>)
    ensures
        r@ == room_ids(rooms@),
{
    let mut r: Vec<u128> = Vec::new();
    let mut i: usize = 0;
    while i < rooms.len()
        invariant
            i <= rooms.len(),
            r@ == room_ids(rooms@).take(i as int),
        decreases rooms.len() - i,
    {
        r.push(rooms[i].id);
        i = i + 1;
        assert(r@ =~= room_ids(rooms@).take(i as int));
    }
    assert(room_ids(rooms@).take(i as int) =~= room_ids(rooms@));
    r
}

fn collect_instructor_ids(instructors: &Vec<Instructor>) -> (r: Vec<u128>)
    ensures
        r@ == instructor_ids(instructors@),
{
    let mut r: Vec<u128> = Vec::new();
    let mut i: usize = 0;
    while i < instructors.len()
        invariant
            i <= instructors.len(),
            r@ == instructor_ids(instructors@).take(i as int),
        decreases instructors.len() - i,
    {
        r.push(instructors[i].id);
        i = i + 1;
        assert(r@ =~= instructor_ids(instructors@).take(i as int));
    }
    assert(instructor_ids(instructors@).take(i as int) =~= instructor_ids(instructors@));
    r
}

/// The map holds, for each identifier of `ids`, its last position.
pub open spec fn indexes(m: Map<u128, usize>, ids: Seq<u128>) -> bool {
    &&& forall|id: u128| #[trigger] m.contains_key(id) <==> last_index_of(ids, id) >= 0
    &&& forall|id: u128| #[trigger] m.contains_key(id) ==> m[id] == last_index_of(ids, id)
}

proof fn lemma_last_index_range(ids: Seq<u128>, id: u128)
    ensures
        -1 <= last_index_of(ids, id) < ids.len(),
    decreases ids.len(),
{
    if ids.len() > 0 {
        lemma_last_index_range(ids.drop_last(), id);
    }
}

/// A map from each identifier to its last position, filled in order as a map
/// collected from the records is, so that later records win.
fn index_by_id(ids: &Vec<u128>) -> (m: HashMap<u128, usize>)
    ensures
        indexes(m@, ids@),
{
    broadcast use vstd::std_specs::hash::group_hash_axioms;

    let mut m: HashMap<u128, usize> = HashMap::new();
    let mut i: usize = 0;
    while i < ids.len()
        invariant
            i <= ids.len(),
            indexes(m@, ids@.take(i as int)),
        decreases ids.len() - i,
    {
        let id = ids[i];
        m.insert(id, i);
        proof {
            assert forall|q: u128| #[trigger] m@.contains_key(q) <==> last_index_of(
                ids@.take(i + 1),
                q,
            ) >= 0 by {
                lemma_last_index_step(ids@, q, i + 1);
            }
            assert forall|q: u128| #[trigger] m@.contains_key(q) implies m@[q] == last_index_of(
                ids@.take(i + 1),
                q,
            ) by {
                lemma_last_index_step(ids@, q, i + 1);
            }
        }
        i = i + 1;
    }
    assert(ids@.take(i as int) =~= ids@);
    m
}

/// The last position of `id` among the identifiers the map indexes, if any.
fn last_index(index: &HashMap<u128, usize>, Ghost(ids): Ghost<Seq<u128>>, id: u128) -> (r: Option<usize>)
    requires
        indexes(index@, ids),
    ensures
        match r {
            Some(i) => i < ids.len() && i == last_index_of(ids, id),
            None => last_index_of(ids, id) == -1,
        },
{
    broadcast use vstd::std_specs::hash::group_hash_axioms;

    proof {
        lemma_last_index_range(ids, id);
    }
    match index.get(&id) {
        Some(i) => Some(*i),
        None => None,
    }
}

/// The position of a day in the week, from 0 for Monday.
pub open spec fn day_number(d: Day) -> int {
    match d {
        Day::Monday => 0,
        Day::Tuesday => 1,
        Day::Wednesday => 2,
        Day::Thursday => 3,
        Day::Friday => 4,
        Day::Saturday => 5,
    }
}

/// A day and period as one number, different for every pair.
pub open spec fn slot_code(slot: SessionSlot) -> int {
    slot.period * 6 + day_number(slot.day)
}

fn slot_number(slot: SessionSlot) -> (r: u128)
    ensures
        r == slot_code(slot),
{
    let d: u128 = match slot.day {
        Day::Monday => 0,
        Day::Tuesday => 1,
        Day::Wednesday => 2,
        Day::Thursday => 3,
        Day::Friday => 4,
        Day::Saturday => 5,
    };
    (slot.period as u128) * 6 + d
}

proof fn lemma_slot_code_injective(x: SessionSlot, y: SessionSlot)
    requires
        slot_code(x) == slot_code(y),
    ensures
        x == y,
{
    assert(x.period == y.period && day_number(x.day) == day_number(y.day));
}

/// The owner of a slot: the room, or the instructor.
pub open spec fn slot_owner(a: Assignment, by_room: bool) -> u128 {
    if by_room {
        a.room_id
    } else {
        a.instructor_id
    }
}

/// A set of (owner, slot) pairs, held as a set of slot numbers per owner.
pub open spec fn holds_pair(m: Map<u128, HashSet<u128>>, owner: u128, code: int) -> bool {
    m.contains_key(owner) && m[owner]@.contains(code as u128)
}

/// Adds an (owner, slot) pair, telling whether it was new.
fn record_pair(m: &mut HashMap<u128, HashSet<u128>>, owner: u128, code: u128) -> (fresh: bool)
    ensures
        fresh == !holds_pair(old(m)@, owner, code as int),
        forall|x: u128, y: int|
            0 <= y <= u128::MAX ==> (#[trigger] holds_pair(final(m)@, x, y) <==> holds_pair(
                old(m)@,
                x,
                y,
            ) || (x == owner && y == code)),
{
    broadcast use vstd::std_specs::hash::group_hash_axioms;

    match m.remove(&owner) {
        Some(mut set) => {
            let fresh = set.insert(code);
            m.insert(owner, set);
            fresh
        },
        None => {
            let mut set: HashSet<u128> = HashSet::new();
            set.insert(code);
            m.insert(owner, set);
            true
        },
    }
}

/// How many sessions land on a slot their owner (room or instructor) already
/// holds: the sessions that find their (owner, slot) pair already in the set
/// of pairs seen.
fn count_slot_repeats(s: &[Assignment], by_room: bool) -> (r: usize)
    ensures
        r == repeat_count(
            if by_room {
                room_slots(s@)
            } else {
                instructor_slots(s@)
            },
        ),
{
    let ghost keys = if by_room {
        room_slots(s@)
    } else {
        instructor_slots(s@)
    };
    let mut seen: HashMap<u128, HashSet<u128>> = HashMap::new();
    let mut count: usize = 0;
    let mut i: usize = 0;
    while i < s.len()
        invariant
            i <= s.len(),
            keys == (if by_room {
                room_slots(s@)
            } else {
                instructor_slots(s@)
            }),
            count == repeat_count(keys.take(i as int)),
            count <= i,
            forall|x: u128, y: int|
                0 <= y <= u128::MAX ==> (#[trigger] holds_pair(seen@, x, y) <==> exists|j: int|
                    0 <= j < i && slot_owner(#[trigger] s@[j], by_room) == x && slot_code(s@[j].slot)
                        == y),
        decreases s.len() - i,
    {
        let a = s[i];
        let owner = if by_room {
            a.room_id
        } else {
            a.instructor_id
        };
        let code = slot_number(a.slot);
        let fresh = record_pair(&mut seen, owner, code);
        proof {
            lemma_repeat_count_step(keys, i as int);
            assert(keys[i as int] == (slot_owner(a, by_room), a.slot.day, a.slot.period));
            if seen_before(keys, i as int) {
                let j = choose|j: int| 0 <= j < i && keys[j] == keys[i as int];
                assert(keys[j] == (slot_owner(s@[j], by_room), s@[j].slot.day, s@[j].slot.period));
                assert(slot_code(s@[j].slot) == slot_code(a.slot));
            }
            if !fresh {
                let j = choose|j: int|
                    0 <= j < i && slot_owner(#[trigger] s@[j], by_room) == owner && slot_code(
                        s@[j].slot,
                    ) == code;
                lemma_slot_code_injective(s@[j].slot, a.slot);
                assert(keys[j] == (slot_owner(s@[j], by_room), s@[j].slot.day, s@[j].slot.period));
                assert(keys[j] == keys[i as int]);
            }
            assert forall|x: u128, y: int|
                0 <= y <= u128::MAX implies (#[trigger] holds_pair(seen@, x, y) <==> exists|j: int|
                    0 <= j < i + 1 && slot_owner(#[trigger] s@[j], by_room) == x && slot_code(
                        s@[j].slot,
                    ) == y) by {
                if exists|j: int|
                    0 <= j < i + 1 && slot_owner(#[trigger] s@[j], by_room) == x && slot_code(
                        s@[j].slot,
                    ) == y {
                    let j = choose|j: int|
                        0 <= j < i + 1 && slot_owner(#[trigger] s@[j], by_room) == x && slot_code(
                            s@[j].slot,
                        ) == y;
                    if j < i {
                        assert(exists|j2: int|
                            0 <= j2 < i && slot_owner(#[trigger] s@[j2], by_room) == x && slot_code(
                                s@[j2].slot,
                            ) == y);
                    }
                }
                if x == owner && y == code {
                    assert(slot_owner(s@[i as int], by_room) == x && slot_code(s@[i as int].slot) == y);
                }
            }
        }
        if !fresh {
            count = count + 1;
        }
        i = i + 1;
    }
    assert(keys.take(i as int) =~= keys);
    count
}

/// How many sessions land in a room already taken at their slot.
pub fn count_room_conflicts(s: &[Assignment]) -> (r: usize)
    ensures
        r == repeat_count(room_slots(s@)),
{
    count_slot_repeats(s, true)
}

/// How many sessions are given to an instructor already teaching at their slot.
pub fn count_instructor_conflicts(s: &[Assignment]) -> (r: usize)
    ensures
        r == repeat_count(instructor_slots(s@)),
{
    count_slot_repeats(s, false)
}

/// How many sessions sit in a room too small for their course.
pub fn count_capacity_violations(
    s: &[Assignment],
    courses: &Vec<Course>,
    rooms: &Vec<Room>,
) -> (r: usize)
    ensures
        r == capacity_violations(s@, courses@, rooms@),
        (forall|i: int|
            0 <= i < s@.len() && 0 <= last_index_of(course_ids(courses@), #[trigger] s@[i].course_id)
                && 0 <= last_index_of(room_ids(rooms@), s@[i].room_id) ==> rooms@[last_index_of(
                room_ids(rooms@),
                s@[i].room_id,
            )].capacity >= courses@[last_index_of(course_ids(courses@), s@[i].course_id)].student_count)
            ==> r == 0,
{
    let course_id_list = collect_course_ids(courses);
    let room_id_list = collect_room_ids(rooms);
    let course_index = index_by_id(&course_id_list);
    let room_index = index_by_id(&room_id_list);
    let mut count: usize = 0;
    let mut i: usize = 0;
    while i < s.len()
        invariant
            i <= s.len(),
            indexes(course_index@, course_ids(courses@)),
            indexes(room_index@, room_ids(rooms@)),
            count == capacity_violations(s@.take(i as int), courses@, rooms@),
            count <= i,
        decreases s.len() - i,
    {
        let a = s[i];
        let over = match (
            last_index(&course_index, Ghost(course_ids(courses@)), a.course_id),
            last_index(&room_index, Ghost(room_ids(rooms@)), a.room_id),
        ) {
            (Some(ci), Some(ri)) => rooms[ri].capacity < courses[ci].student_count,
            _ => false,
        };
        proof {
            lemma_capacity_step(s@, courses@, rooms@, i as int);
            assert(over == over_capacity(s@[i as int], courses@, rooms@));
        }
        if over {
            count = count + 1;
        }
        i = i + 1;
    }
    assert(s@.take(i as int) =~= s@);
    proof {
        if forall|i: int|
            0 <= i < s@.len() && 0 <= last_index_of(course_ids(courses@), #[trigger] s@[i].course_id)
                && 0 <= last_index_of(room_ids(rooms@), s@[i].room_id) ==> rooms@[last_index_of(
                room_ids(rooms@),
                s@[i].room_id,
            )].capacity >= courses@[last_index_of(course_ids(courses@), s@[i].course_id)].student_count {
            lemma_roomy_sessions_are_not_counted(s@, courses@, rooms@);
        }
    }
    count
}

/// The number of sessions counted for an (owner, day) pair in a map of counts
/// per owner and day number.
pub open spec fn pair_count(m: Map<u128, HashMap<u128, usize>>, owner: u128, code: int) -> int {
    if m.contains_key(owner) && m[owner]@.contains_key(code as u128) {
        m[owner]@[code as u128] as int
    } else {
        0
    }
}

fn day_code(d: Day) -> (r: u128)
    ensures
        r == day_number(d),
{
    match d {
        Day::Monday => 0,
        Day::Tuesday => 1,
        Day::Wednesday => 2,
        Day::Thursday => 3,
        Day::Friday => 4,
        Day::Saturday => 5,
    }
}

/// Counts one more session for an (owner, day) pair.
fn increment_pair(m: &mut HashMap<u128, HashMap<u128, usize>>, owner: u128, code: u128)
    requires
        pair_count(old(m)@, owner, code as int) < usize::MAX,
    ensures
        forall|x: u128, y: int|
            0 <= y <= u128::MAX ==> #[trigger] pair_count(final(m)@, x, y) == pair_count(
                old(m)@,
                x,
                y,
            ) + if x == owner && y == code {
                1int
            } else {
                0int
            },
{
    broadcast use vstd::std_specs::hash::group_hash_axioms;

    match m.remove(&owner) {
        Some(mut inner) => {
            let c: usize = match inner.get(&code) {
                Some(v) => *v,
                None => 0,
            };
            inner.insert(code, c + 1);
            m.insert(owner, inner);
        },
        None => {
            let mut inner: HashMap<u128, usize> = HashMap::new();
            inner.insert(code, 1);
            m.insert(owner, inner);
        },
    }
}

/// The number of sessions counted for an (owner, day) pair.
fn lookup_pair(m: &HashMap<u128, HashMap<u128, usize>>, owner: u128, code: u128) -> (r: usize)
    ensures
        r == pair_count(m@, owner, code as int),
{
    broadcast use vstd::std_specs::hash::group_hash_axioms;

    match m.get(&owner) {
        Some(inner) => match inner.get(&code) {
            Some(v) => *v,
            None => 0,
        },
        None => 0,
    }
}

proof fn lemma_key_count_bound<K>(keys: Seq<K>, k: K)
    ensures
        key_count(keys, k) <= keys.len(),
    decreases keys.len(),
{
    if keys.len() > 0 {
        lemma_key_count_bound(keys.drop_last(), k);
    }
}

/// The daily load of every (instructor, day) pair, as counts per instructor
/// and day number.
fn count_daily_loads(s: &[Assignment]) -> (m: HashMap<u128, HashMap<u128, usize>>)
    ensures
        forall|x: u128, d: Day| #[trigger] pair_count(m@, x, day_number(d)) == key_count(
            instructor_days(s@),
            (x, d),
        ),
{
    let ghost keys = instructor_days(s@);
    let mut m: HashMap<u128, HashMap<u128, usize>> = HashMap::new();
    let mut i: usize = 0;
    while i < s.len()
        invariant
            i <= s.len(),
            keys == instructor_days(s@),
            forall|x: u128, d: Day| #[trigger] pair_count(m@, x, day_number(d)) == key_count(
                keys.take(i as int),
                (x, d),
            ),
        decreases s.len() - i,
    {
        let a = s[i];
        let code = day_code(a.slot.day);
        proof {
            lemma_key_count_bound(keys.take(i as int), (a.instructor_id, a.slot.day));
            assert(pair_count(m@, a.instructor_id, day_number(a.slot.day)) == key_count(
                keys.take(i as int),
                (a.instructor_id, a.slot.day),
            ));
        }
        let ghost before = m@;
        increment_pair(&mut m, a.instructor_id, code);
        proof {
            assert(keys[i as int] == (a.instructor_id, a.slot.day));
            assert forall|x: u128, d: Day| #[trigger] pair_count(m@, x, day_number(d)) == key_count(
                keys.take(i + 1),
                (x, d),
            ) by {
                lemma_key_count_step(keys, (x, d), i as int);
                assert(pair_count(before, x, day_number(d)) == key_count(keys.take(i as int), (x, d)));
                if x == a.instructor_id && day_number(d) == code {
                    assert(d == a.slot.day);
                }
            }
        }
        i = i + 1;
    }
    assert(keys.take(i as int) =~= keys);
    m
}

/// Sessions taught beyond the daily limits, summed over every
/// (instructor, day) pair that occurs: the daily loads are counted first,
/// then each pair's excess is added at its first session.
pub fn count_total_overload(s: &[Assignment], instructors: &Vec<Instructor>) -> (r: u128)
    ensures
        r == total_overload(s@, instructors@),
{
    let ghost keys = instructor_days(s@);
    let instructor_id_list = collect_instructor_ids(instructors);
    let instructor_index = index_by_id(&instructor_id_list);
    let loads = count_daily_loads(s);
    let mut seen: HashMap<u128, HashSet<u128>> = HashMap::new();
    let n = s.len();
    let mut total: u128 = 0;
    let mut i: usize = 0;
    while i < n
        invariant
            n == s.len(),
            i <= n,
            keys == instructor_days(s@),
            indexes(instructor_index@, instructor_ids(instructors@)),
            forall|x: u128, d: Day| #[trigger] pair_count(loads@, x, day_number(d)) == key_count(
                keys,
                (x, d),
            ),
            forall|x: u128, y: int|
                0 <= y <= u128::MAX ==> (#[trigger] holds_pair(seen@, x, y) <==> exists|j: int|
                    0 <= j < i && (#[trigger] s@[j]).instructor_id == x && day_number(s@[j].slot.day)
                        == y),
            total == overload_upto(keys, instructors@, i as nat),
            total <= i * n,
        decreases n - i,
    {
        let b = s[i];
        let code = day_code(b.slot.day);
        let fresh = record_pair(&mut seen, b.instructor_id, code);
        proof {
            assert(keys[i as int] == (b.instructor_id, b.slot.day));
            if seen_before(keys, i as int) {
                let j = choose|j: int| 0 <= j < i && keys[j] == keys[i as int];
                assert(keys[j] == (s@[j].instructor_id, s@[j].slot.day));
            }
            if !fresh {
                let j = choose|j: int|
                    0 <= j < i && (#[trigger] s@[j]).instructor_id == b.instructor_id && day_number(
                        s@[j].slot.day,
                    ) == code;
                assert(s@[j].slot.day == b.slot.day);
                assert(keys[j] == (s@[j].instructor_id, s@[j].slot.day));
                assert(keys[j] == keys[i as int]);
            }
            assert forall|x: u128, y: int|
                0 <= y <= u128::MAX implies (#[trigger] holds_pair(seen@, x, y) <==> exists|j: int|
                    0 <= j < i + 1 && (#[trigger] s@[j]).instructor_id == x && day_number(
                        s@[j].slot.day,
                    ) == y) by {
                if exists|j: int|
                    0 <= j < i + 1 && (#[trigger] s@[j]).instructor_id == x && day_number(
                        s@[j].slot.day,
                    ) == y {
                    let j = choose|j: int|
                        0 <= j < i + 1 && (#[trigger] s@[j]).instructor_id == x && day_number(
                            s@[j].slot.day,
                        ) == y;
                    if j < i {
                        assert(exists|j2: int|
                            0 <= j2 < i && (#[trigger] s@[j2]).instructor_id == x && day_number(
                                s@[j2].slot.day,
                            ) == y);
                    }
                }
                if x == b.instructor_id && y == code {
                    assert((s@[i as int]).instructor_id == x && day_number(s@[i as int].slot.day) == y);
                }
            }
        }
        let mut excess: usize = 0;
        if fresh {
            let load = lookup_pair(&loads, b.instructor_id, code);
            proof {
                assert(pair_count(loads@, b.instructor_id, day_number(b.slot.day)) == key_count(
                    keys,
                    (b.instructor_id, b.slot.day),
                ));
                lemma_key_count_bound(keys, keys[i as int]);
            }
            match last_index(&instructor_index, Ghost(instructor_ids(instructors@)), b.instructor_id) {
                Some(ii) => {
                    if load > instructors[ii].max_sessions_per_day {
                        excess = load - instructors[ii].max_sessions_per_day;
                    }
                },
                None => {},
            }
            assert(excess == excess_load(load as nat, keys[i as int].0, instructors@));
        }
        proof {
            lemma_product_bound(i as int, n as int);
            lemma_product_bound((i + 1) as int, n as int);
            assert((i + 1) * n == i * n + n) by (nonlinear_arith);
        }
        total = total + excess as u128;
        i = i + 1;
    }
    total
}

/// The score left after the given counts of each kind of rule break.
fn score_from_counts(overload: u128, room_clashes: usize, instructor_clashes: usize, over_cap: usize) -> (r: u64)
    ensures
        r == score_after(weighted_penalty(overload as int, room_clashes as int, instructor_clashes as int, over_cap as int)),
{
    if overload >= BASE_SCORE as u128 || room_clashes >= BASE_SCORE as usize
        || instructor_clashes >= BASE_SCORE as usize || over_cap >= BASE_SCORE as usize {
        return 0;
    }
    let p: u64 = OVERLOAD_PENALTY * (overload as u64) + ROOM_CONFLICT_PENALTY * (room_clashes as u64)
        + INSTRUCTOR_CONFLICT_PENALTY * (instructor_clashes as u64) + CAPACITY_PENALTY * (over_cap as u64);
    if p >= BASE_SCORE {
        0
    } else {
        BASE_SCORE - p
    }
}

/// Scores a timetable against the courses, instructors and rooms of a request.
pub fn fitness(assignments: &[Assignment], request: &GenerationRequest) -> (r: u64)
    ensures
        r == request_fitness(assignments@, *request),
        r <= BASE_SCORE,
{
    let overload = count_total_overload(assignments, &request.instructors);
    let room_clashes = count_room_conflicts(assignments);
    let instructor_clashes = count_instructor_conflicts(assignments);
    let over_cap = count_capacity_violations(assignments, &request.courses, &request.rooms);
    score_from_counts(overload, room_clashes, instructor_clashes, over_cap)
}

} // verus!
