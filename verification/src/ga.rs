use vstd::prelude::*;

use rand::rngs::ThreadRng;

use crate::fitness::{fitness, request_fitness, room_ids, BASE_SCORE};
use crate::models::{
    Assignment, Course, Day, GenerationRequest, Room, Schedule, SessionSlot, MUTATION_RATE_SCALE,
};
use crate::random::{gen_below, gen_ratio, new_rng, pick};

verus! {

broadcast use vstd::seq_lib::group_seq_properties;

/// The smallest population the search works with.
pub const MIN_POPULATION: usize = 4;

/// How many candidates a tournament draws.
pub const TOURNAMENT_SIZE: usize = 4;

/// A candidate timetable of the search and its fitness.
pub struct Genome {
    pub assignments: Vec<Assignment>,
    pub fitness: u64,
}

/// How many sessions a course is given: its weekly sessions, at least one.
pub open spec fn sessions_of(c: Course) -> nat {
    if c.sessions_per_week == 0 {
        1
    } else {
        c.sessions_per_week as nat
    }
}

/// The course of every session, in timetable order: each course in turn,
/// repeated once per session.
pub open spec fn course_plan(cs: Seq<Course>) -> Seq<Course>
    decreases cs.len(),
{
    if cs.len() == 0 {
        Seq::empty()
    } else {
        course_plan(cs.drop_last()) + Seq::new(sessions_of(cs.last()), |_k: int| cs.last())
    }
}

/// Periods are numbered from 0 up to this bound (exclusive).
pub open spec fn period_bound(request: GenerationRequest) -> int {
    if request.periods_per_day == 0 {
        1
    } else {
        request.periods_per_day as int
    }
}

/// The session belongs to the course, its subject and its instructor.
pub open spec fn serves(a: Assignment, c: Course) -> bool {
    &&& a.course_id == c.id
    &&& a.subject_id == c.subject_id
    &&& a.instructor_id == c.instructor_id
}

/// The session is in one of the request's rooms, on one of its days (Monday
/// when it lists none) and in one of its periods.
pub open spec fn placed_within(a: Assignment, request: GenerationRequest) -> bool {
    &&& room_ids(request.rooms@).contains(a.room_id)
    &&& if request.days@.len() == 0 {
        a.slot.day == Day::Monday
    } else {
        request.days@.contains(a.slot.day)
    }
    &&& a.slot.period < period_bound(request)
}

/// A timetable gives every course its sessions, in order, each placed within
/// what the request offers.
pub open spec fn fits_request(s: Seq<Assignment>, request: GenerationRequest) -> bool {
    let plan = course_plan(request.courses@);
    &&& s.len() == plan.len()
    &&& forall|k: int|
        0 <= k < s.len() ==> serves(#[trigger] s[k], plan[k]) && placed_within(s[k], request)
}

/// A session drawn anew by mutation: same course, subject and instructor; a
/// day of the request (kept when it lists none), a period in range, and a room
/// of the request (kept when it lists none).
pub open spec fn redrawn(old: Assignment, new: Assignment, request: GenerationRequest) -> bool {
    &&& new.course_id == old.course_id
    &&& new.subject_id == old.subject_id
    &&& new.instructor_id == old.instructor_id
    &&& if request.days@.len() == 0 {
        new.slot.day == old.slot.day
    } else {
        request.days@.contains(new.slot.day)
    }
    &&& new.slot.period < period_bound(request)
    &&& if request.rooms@.len() == 0 {
        new.room_id == old.room_id
    } else {
        room_ids(request.rooms@).contains(new.room_id)
    }
}

pub open spec fn genome_ok(g: Genome, request: GenerationRequest) -> bool {
    &&& fits_request(g.assignments@, request)
    &&& g.fitness == request_fitness(g.assignments@, request)
}

/// A child's sessions, pair by pair, are those of one parent, possibly drawn
/// anew by mutation; there are as many as the shorter parent has.
pub open spec fn child_of(c: Seq<Assignment>, a: Seq<Assignment>, b: Seq<Assignment>, request: GenerationRequest) -> bool {
    &&& c.len() == if a.len() <= b.len() {
        a.len()
    } else {
        b.len()
    }
    &&& forall|k: int|
        0 <= k < c.len() ==> {
            ||| #[trigger] c[k] == a[k]
            ||| c[k] == b[k]
            ||| redrawn(a[k], c[k], request)
            ||| redrawn(b[k], c[k], request)
        }
}

/// The drawn candidates of a tournament over the population: as many as a
/// tournament draws, each a member of the population, with `w` the first of
/// them of highest fitness.
pub open spec fn tournament_won(p: Seq<Genome>, draws: Seq<&Genome>, w: int) -> bool {
    &&& draws.len() == TOURNAMENT_SIZE
    &&& forall|j: int| 0 <= j < draws.len() ==> p.contains(*#[trigger] draws[j])
    &&& is_first_fittest(draws, w)
}

/// The genome is a child of the winners of two tournaments over the
/// population.
pub open spec fn bred_from(g: Genome, p: Seq<Genome>, request: GenerationRequest) -> bool {
    exists|da: Seq<&Genome>, wa: int, db: Seq<&Genome>, wb: int|
        #![trigger tournament_won(p, da, wa), tournament_won(p, db, wb)]
        tournament_won(p, da, wa) && tournament_won(p, db, wb) && child_of(
            g.assignments@,
            da[wa].assignments@,
            db[wb].assignments@,
            request,
        )
}

pub open spec fn population_ok(p: Seq<Genome>, request: GenerationRequest) -> bool {
    forall|k: int| 0 <= k < p.len() ==> genome_ok(#[trigger] p[k], request)
}

/// Where a genome of the given fitness goes in a list ordered from the best
/// down: before the first entry that is no better.
pub open spec fn insert_index(s: Seq<Genome>, f: u64) -> int
    decreases s.len(),
{
    if s.len() == 0 {
        0
    } else if s[0].fitness <= f {
        0
    } else {
        1 + insert_index(s.drop_first(), f)
    }
}

/// The population ordered by fitness, best first; genomes of equal fitness
/// keep their order.
pub open spec fn sorted_by_fitness(s: Seq<Genome>) -> Seq<Genome>
    decreases s.len(),
{
    if s.len() == 0 {
        s
    } else {
        let r = sorted_by_fitness(s.drop_first());
        r.insert(insert_index(r, s[0].fitness), s[0])
    }
}

proof fn lemma_insert_index(s: Seq<Genome>, f: u64, p: int)
    requires
        0 <= p <= s.len(),
        forall|k: int| 0 <= k < p ==> s[k].fitness > f,
        p == s.len() || s[p].fitness <= f,
    ensures
        insert_index(s, f) == p,
    decreases p,
{
    if p > 0 {
        lemma_insert_index(s.drop_first(), f, p - 1);
    }
}

proof fn lemma_insert_index_range(s: Seq<Genome>, f: u64)
    ensures
        0 <= insert_index(s, f) <= s.len(),
    decreases s.len(),
{
    if s.len() > 0 {
        lemma_insert_index_range(s.drop_first(), f);
    }
}

/// Ordering a population only rearranges it.
proof fn lemma_sorted_is_permutation(s: Seq<Genome>)
    ensures
        sorted_by_fitness(s).to_multiset() == s.to_multiset(),
        sorted_by_fitness(s).len() == s.len(),
    decreases s.len(),
{
    broadcast use vstd::multiset::group_multiset_axioms;

    if s.len() > 0 {
        let r = sorted_by_fitness(s.drop_first());
        lemma_sorted_is_permutation(s.drop_first());
        lemma_insert_index_range(r, s[0].fitness);
        vstd::seq_lib::to_multiset_insert(r, insert_index(r, s[0].fitness), s[0]);
        vstd::seq_lib::to_multiset_insert(s.drop_first(), 0, s[0]);
        assert(s.drop_first().insert(0, s[0]) =~= s);
    }
}

proof fn lemma_sorted_keeps_members(s: Seq<Genome>, k: int)
    requires
        0 <= k < sorted_by_fitness(s).len(),
    ensures
        s.contains(sorted_by_fitness(s)[k]),
{
    lemma_sorted_is_permutation(s);
    let x = sorted_by_fitness(s)[k];
    assert(sorted_by_fitness(s).contains(x));
    vstd::seq_lib::to_multiset_contains(sorted_by_fitness(s), x);
    vstd::seq_lib::to_multiset_contains(s, x);
}

/// Ordering a population puts the fittest genomes first.
proof fn lemma_sorted_is_descending(s: Seq<Genome>)
    ensures
        forall|i: int, j: int|
            0 <= i < j < sorted_by_fitness(s).len() ==> sorted_by_fitness(s)[i].fitness
                >= sorted_by_fitness(s)[j].fitness,
    decreases s.len(),
{
    if s.len() > 0 {
        let r = sorted_by_fitness(s.drop_first());
        let f = s[0].fitness;
        let p = insert_index(r, f);
        lemma_sorted_is_descending(s.drop_first());
        lemma_insert_index_range(r, f);
        lemma_insert_index_facts(r, f);
        lemma_sorted_is_permutation(s.drop_first());
        let t = r.insert(p, s[0]);
        assert forall|i: int, j: int| 0 <= i < j < t.len() implies t[i].fitness >= t[j].fitness by {
            if j < p {
                assert(t[i] == r[i] && t[j] == r[j]);
            } else if j == p {
                assert(t[i] == r[i]);
            } else if i < p {
                assert(t[i] == r[i] && t[j] == r[j - 1]);
            } else if i == p {
                assert(t[j] == r[j - 1]);
                assert(r[p].fitness <= f);
            } else {
                assert(t[i] == r[i - 1] && t[j] == r[j - 1]);
            }
        }
    }
}

proof fn lemma_insert_index_facts(s: Seq<Genome>, f: u64)
    ensures
        forall|k: int| 0 <= k < insert_index(s, f) ==> s[k].fitness > f,
        insert_index(s, f) < s.len() ==> s[insert_index(s, f)].fitness <= f,
    decreases s.len(),
{
    lemma_insert_index_range(s, f);
    if s.len() > 0 && s[0].fitness > f {
        lemma_insert_index_facts(s.drop_first(), f);
        lemma_insert_index_range(s.drop_first(), f);
        assert forall|k: int| 0 <= k < insert_index(s, f) implies s[k].fitness > f by {
            if k > 0 {
                assert(s[k] == s.drop_first()[k - 1]);
            }
        }
    }
}

/// Orders a population by fitness, best first, keeping the order of equals.
fn sort_by_fitness(population: Vec<Genome>) -> (r: Vec<Genome>)
    ensures
        r@ == sorted_by_fitness(population@),
        r@.to_multiset() == population@.to_multiset(),
        forall|i: int, j: int| 0 <= i < j < r@.len() ==> r@[i].fitness >= r@[j].fitness,
{
    let ghost orig = population@;
    let mut rest = population;
    let mut out: Vec<Genome> = Vec::new();
    assert(orig.skip(orig.len() as int) =~= Seq::<Genome>::empty());
    assert(orig.take(orig.len() as int) =~= orig);
    while rest.len() > 0
        invariant
            rest.len() <= orig.len(),
            rest@ == orig.take(rest.len() as int),
            out@ == sorted_by_fitness(orig.skip(rest.len() as int)),
        decreases rest.len(),
    {
        let ghost k = rest.len() - 1;
        let g = rest.pop().unwrap();
        assert(rest@ =~= orig.take(k));
        let f = g.fitness;
        let mut p: usize = 0;
        while p < out.len() && out[p].fitness > f
            invariant
                p <= out.len(),
                forall|j: int| 0 <= j < p ==> out@[j].fitness > f,
            decreases out.len() - p,
        {
            p = p + 1;
        }
        proof {
            lemma_insert_index(out@, f, p as int);
            assert(orig.skip(k).drop_first() =~= orig.skip(k + 1));
            assert(orig.skip(k)[0] == g);
        }
        out.insert(p, g);
    }
    assert(orig.skip(0) =~= orig);
    proof {
        lemma_sorted_is_permutation(orig);
        lemma_sorted_is_descending(orig);
    }
    out
}

/// A copy of a list of sessions.
fn copy_assignments(v: &Vec<Assignment>) -> (r: Vec<Assignment>)
    ensures
        r@ == v@,
{
    let mut r: Vec<Assignment> = Vec::new();
    let mut i: usize = 0;
    while i < v.len()
        invariant
            i <= v.len(),
            r@ == v@.take(i as int),
        decreases v.len() - i,
    {
        r.push(v[i]);
        i = i + 1;
        assert(r@ =~= v@.take(i as int));
    }
    assert(v@.take(i as int) =~= v@);
    r
}

fn copy_genome(g: &Genome) -> (r: Genome)
    ensures
        r.assignments@ == g.assignments@,
        r.fitness == g.fitness,
{
    Genome { assignments: copy_assignments(&g.assignments), fitness: g.fitness }
}

fn period_limit(request: &GenerationRequest) -> (r: usize)
    ensures
        r == period_bound(*request),
{
    if request.periods_per_day == 0 {
        1
    } else {
        request.periods_per_day
    }
}

proof fn lemma_picked_room(rooms: Seq<Room>, room: Room)
    requires
        rooms.contains(room),
    ensures
        room_ids(rooms).contains(room.id),
{
    let k = choose|k: int| 0 <= k < rooms.len() && rooms[k] == room;
    assert(room_ids(rooms)[k] == room.id);
}

proof fn lemma_plan_step(cs: Seq<Course>, i: int)
    requires
        0 <= i < cs.len(),
    ensures
        course_plan(cs.take(i + 1)) == course_plan(cs.take(i)) + Seq::new(
            sessions_of(cs[i]),
            |_k: int| cs[i],
        ),
{
    assert(cs.take(i + 1).drop_last() =~= cs.take(i));
}

/// A genome with every session placed at random.
pub fn random_genome(request: &GenerationRequest, rng: &mut ThreadRng) -> (g: Genome)
    requires
        request.courses.len() == 0 || request.rooms.len() > 0,
    ensures
        genome_ok(g, *request),
{
    let ghost courses = request.courses@;
    let bound = period_limit(request);
    let mut assignments: Vec<Assignment> = Vec::new();
    let mut ci: usize = 0;
    while ci < request.courses.len()
        invariant
            ci <= request.courses.len(),
            courses == request.courses@,
            request.courses.len() == 0 || request.rooms.len() > 0,
            bound == period_bound(*request),
            assignments@.len() == course_plan(courses.take(ci as int)).len(),
            forall|k: int|
                0 <= k < assignments@.len() ==> serves(
                    #[trigger] assignments@[k],
                    course_plan(courses.take(ci as int))[k],
                ) && placed_within(assignments@[k], *request),
        decreases request.courses.len() - ci,
    {
        let course = &request.courses[ci];
        let count: usize = if course.sessions_per_week == 0 {
            1
        } else {
            course.sessions_per_week
        };
        let ghost base = assignments@.len();
        let mut j: usize = 0;
        while j < count
            invariant
                j <= count,
                count == sessions_of(*course),
                ci < request.courses.len(),
                *course == courses[ci as int],
                courses == request.courses@,
                request.courses.len() == 0 || request.rooms.len() > 0,
                bound == period_bound(*request),
                base == course_plan(courses.take(ci as int)).len(),
                assignments@.len() == base + j,
                forall|k: int|
                    0 <= k < base ==> serves(
                        #[trigger] assignments@[k],
                        course_plan(courses.take(ci as int))[k],
                    ),
                forall|k: int| base <= k < assignments@.len() ==> serves(#[trigger] assignments@[k], *course),
                forall|k: int| 0 <= k < assignments@.len() ==> placed_within(#[trigger] assignments@[k], *request),
            decreases count - j,
        {
            let day = match pick(request.days.as_slice(), rng) {
                Some(d) => *d,
                None => Day::Monday,
            };
            let period = gen_below(rng, bound);
            let room = pick(request.rooms.as_slice(), rng).expect("at least one room is required");
            proof {
                lemma_picked_room(request.rooms@, *room);
            }
            assignments.push(
                Assignment {
                    course_id: course.id,
                    subject_id: course.subject_id,
                    instructor_id: course.instructor_id,
                    room_id: room.id,
                    slot: SessionSlot { day, period },
                },
            );
            j = j + 1;
        }
        proof {
            lemma_plan_step(courses, ci as int);
            let plan = course_plan(courses.take(ci + 1));
            assert forall|k: int| 0 <= k < assignments@.len() implies serves(
                #[trigger] assignments@[k],
                plan[k],
            ) && placed_within(assignments@[k], *request) by {
                if k < base {
                    assert(plan[k] == course_plan(courses.take(ci as int))[k]);
                } else {
                    assert(plan[k] == courses[ci as int]);
                }
            }
        }
        ci = ci + 1;
    }
    assert(courses.take(ci as int) =~= courses);
    let fit = fitness(assignments.as_slice(), request);
    Genome { assignments, fitness: fit }
}

/// The first of the candidates with the highest fitness: candidates are
/// compared in the order they were drawn, and a later one wins only when it
/// is strictly fitter.
pub open spec fn is_first_fittest(candidates: Seq<&Genome>, w: int) -> bool {
    &&& 0 <= w < candidates.len()
    &&& forall|j: int| 0 <= j < candidates.len() ==> candidates[j].fitness <= candidates[w].fitness
    &&& forall|j: int| 0 <= j < w ==> candidates[j].fitness < candidates[w].fitness
}

/// The winner of a tournament among the drawn candidates: the position of the
/// first candidate of highest fitness.
pub fn fittest_candidate(candidates: &Vec<&Genome>) -> (w: usize)
    requires
        candidates@.len() > 0,
    ensures
        is_first_fittest(candidates@, w as int),
{
    let mut best: usize = 0;
    let mut k: usize = 1;
    while k < candidates.len()
        invariant
            candidates@.len() > 0,
            1 <= k <= candidates@.len(),
            best < k,
            forall|j: int| 0 <= j < k ==> candidates@[j].fitness <= candidates@[best as int].fitness,
            forall|j: int| 0 <= j < best ==> candidates@[j].fitness < candidates@[best as int].fitness,
        decreases candidates.len() - k,
    {
        if candidates[k].fitness > candidates[best].fitness {
            best = k;
        }
        k = k + 1;
    }
    best
}

/// The best of a few genomes drawn at random from the population (at least
/// one is drawn): the first drawn of the highest fitness, as
/// `fittest_candidate` decides.
fn tournament<'a>(population: &'a [Genome], size: usize, rng: &mut ThreadRng) -> (r: (
    &'a Genome,
    Ghost<Seq<&'a Genome>>,
))
    requires
        population@.len() > 0,
    ensures
        population@.contains(*r.0),
        r.1@.len() == if size == 0 {
            1
        } else {
            size as int
        },
        forall|j: int| 0 <= j < r.1@.len() ==> population@.contains(*#[trigger] r.1@[j]),
        exists|w: int| is_first_fittest(r.1@, w) && r.0 == r.1@[w],
{
    let mut candidates: Vec<&'a Genome> = Vec::new();
    candidates.push(pick(population, rng).expect("population must not be empty"));
    let mut k: usize = 1;
    while k < size
        invariant
            population@.len() > 0,
            1 <= k,
            size > 0 ==> k <= size,
            size == 0 ==> k == 1,
            candidates@.len() == k,
            forall|j: int| 0 <= j < candidates@.len() ==> population@.contains(*#[trigger] candidates@[j]),
        decreases size - k,
    {
        candidates.push(pick(population, rng).expect("population must not be empty"));
        k = k + 1;
    }
    let w = fittest_candidate(&candidates);
    let winner = candidates[w];
    assert(population@.contains(*candidates@[w as int]));
    assert(winner == candidates@[w as int]);
    assert(is_first_fittest(candidates@, w as int) && winner == candidates@[w as int]);
    (winner, Ghost(candidates@))
}

/// The child whose session at each position comes from the first parent
/// where `take_first` holds there, and from the second parent elsewhere; it
/// has as many sessions as the shorter parent, and its fitness is still to be
/// computed.
pub fn cross_with(parent_a: &Genome, parent_b: &Genome, take_first: &Vec<bool>) -> (child: Genome)
    requires
        take_first@.len() >= parent_a.assignments@.len() || take_first@.len()
            >= parent_b.assignments@.len(),
    ensures
        child.assignments@.len() == if parent_a.assignments@.len() <= parent_b.assignments@.len() {
            parent_a.assignments@.len()
        } else {
            parent_b.assignments@.len()
        },
        forall|k: int|
            0 <= k < child.assignments@.len() ==> #[trigger] child.assignments@[k] == if take_first@[k] {
                parent_a.assignments@[k]
            } else {
                parent_b.assignments@[k]
            },
        child.fitness == 0,
{
    let n = if parent_a.assignments.len() <= parent_b.assignments.len() {
        parent_a.assignments.len()
    } else {
        parent_b.assignments.len()
    };
    let mut assignments: Vec<Assignment> = Vec::with_capacity(parent_a.assignments.len());
    let mut i: usize = 0;
    while i < n
        invariant
            i <= n,
            n <= parent_a.assignments@.len(),
            n <= parent_b.assignments@.len(),
            n <= take_first@.len(),
            assignments@.len() == i,
            forall|k: int|
                0 <= k < i ==> #[trigger] assignments@[k] == if take_first@[k] {
                    parent_a.assignments@[k]
                } else {
                    parent_b.assignments@[k]
                },
        decreases n - i,
    {
        if take_first[i] {
            assignments.push(parent_a.assignments[i]);
        } else {
            assignments.push(parent_b.assignments[i]);
        }
        i = i + 1;
    }
    Genome { fitness: 0, assignments }
}

/// A child that takes each session, pair by pair, from one parent or the
/// other by a fair coin flip, as `cross_with` does with the flips drawn.
fn crossover(parent_a: &Genome, parent_b: &Genome, rng: &mut ThreadRng) -> (r: (Genome, Ghost<Seq<bool>>))
    ensures
        r.0.assignments@.len() == if parent_a.assignments@.len() <= parent_b.assignments@.len() {
            parent_a.assignments@.len()
        } else {
            parent_b.assignments@.len()
        },
        r.1@.len() == r.0.assignments@.len(),
        forall|k: int|
            0 <= k < r.0.assignments@.len() ==> #[trigger] r.0.assignments@[k] == if r.1@[k] {
                parent_a.assignments@[k]
            } else {
                parent_b.assignments@[k]
            },
        r.0.fitness == 0,
{
    let n = if parent_a.assignments.len() <= parent_b.assignments.len() {
        parent_a.assignments.len()
    } else {
        parent_b.assignments.len()
    };
    let mut flips: Vec<bool> = Vec::new();
    let mut i: usize = 0;
    while i < n
        invariant
            i <= n,
            flips@.len() == i,
        decreases n - i,
    {
        flips.push(gen_ratio(rng, 1, 2));
        i = i + 1;
    }
    let child = cross_with(parent_a, parent_b, &flips);
    (child, Ghost(flips@))
}

/// A session drawn anew: the drawn day, when there is one, the drawn period,
/// and the drawn room, when there is one; course, subject and instructor stay.
pub fn redraw_session(a: Assignment, day: Option<Day>, period: usize, room_id: Option<u128>) -> (r: Assignment)
    ensures
        r.course_id == a.course_id,
        r.subject_id == a.subject_id,
        r.instructor_id == a.instructor_id,
        r.slot.day == match day {
            Some(d) => d,
            None => a.slot.day,
        },
        r.slot.period == period,
        r.room_id == match room_id {
            Some(id) => id,
            None => a.room_id,
        },
{
    let mut r = a;
    match day {
        Some(d) => {
            r.slot.day = d;
        },
        None => {},
    }
    r.slot.period = period;
    match room_id {
        Some(id) => {
            r.room_id = id;
        },
        None => {},
    }
    r
}

/// Draws each session anew with probability `mutation_rate_ppm` per million
/// (capped at certainty); a drawn session gets a random day, period and room.
fn mutate(child: &mut Genome, request: &GenerationRequest, rng: &mut ThreadRng) -> (drawn: Ghost<Seq<bool>>)
    ensures
        drawn@.len() == old(child).assignments@.len(),
        forall|k: int|
            0 <= k < old(child).assignments@.len() ==> if #[trigger] drawn@[k] {
                redrawn(old(child).assignments@[k], final(child).assignments@[k], *request)
            } else {
                final(child).assignments@[k] == old(child).assignments@[k]
            },
        request.mutation_rate_ppm == 0 ==> forall|k: int| 0 <= k < drawn@.len() ==> !#[trigger] drawn@[k],
        request.mutation_rate_ppm >= MUTATION_RATE_SCALE ==> forall|k: int|
            0 <= k < drawn@.len() ==> #[trigger] drawn@[k],
        final(child).fitness == old(child).fitness,
        final(child).assignments@.len() == old(child).assignments@.len(),
        forall|k: int|
            0 <= k < old(child).assignments@.len() ==> #[trigger] final(child).assignments@[k]
                == old(child).assignments@[k] || redrawn(
                old(child).assignments@[k],
                final(child).assignments@[k],
                *request,
            ),
        request.mutation_rate_ppm == 0 ==> final(child).assignments@ == old(child).assignments@,
        request.mutation_rate_ppm >= MUTATION_RATE_SCALE ==> forall|k: int|
            0 <= k < old(child).assignments@.len() ==> redrawn(
                old(child).assignments@[k],
                #[trigger] final(child).assignments@[k],
                *request,
            ),
{
    let rate = if request.mutation_rate_ppm > MUTATION_RATE_SCALE {
        MUTATION_RATE_SCALE
    } else {
        request.mutation_rate_ppm
    };
    let bound = period_limit(request);
    let ghost before = child.assignments@;
    let ghost mut drawn: Seq<bool> = Seq::empty();
    let n = child.assignments.len();
    let mut i: usize = 0;
    while i < n
        invariant
            i <= n,
            n == before.len(),
            drawn.len() == i,
            forall|k: int|
                0 <= k < i ==> if #[trigger] drawn[k] {
                    redrawn(before[k], child.assignments@[k], *request)
                } else {
                    child.assignments@[k] == before[k]
                },
            rate == 0 ==> forall|k: int| 0 <= k < i ==> !#[trigger] drawn[k],
            rate == MUTATION_RATE_SCALE ==> forall|k: int| 0 <= k < i ==> #[trigger] drawn[k],
            child.assignments@.len() == n,
            child.fitness == old(child).fitness,
            before == old(child).assignments@,
            bound == period_bound(*request),
            rate == if request.mutation_rate_ppm > MUTATION_RATE_SCALE {
                MUTATION_RATE_SCALE
            } else {
                request.mutation_rate_ppm
            },
            forall|k: int| i <= k < n ==> #[trigger] child.assignments@[k] == before[k],
            forall|k: int|
                0 <= k < i ==> #[trigger] child.assignments@[k] == before[k] || redrawn(
                    before[k],
                    child.assignments@[k],
                    *request,
                ),
            rate == 0 ==> forall|k: int| 0 <= k < i ==> #[trigger] child.assignments@[k] == before[k],
            rate == MUTATION_RATE_SCALE ==> forall|k: int|
                0 <= k < i ==> redrawn(before[k], #[trigger] child.assignments@[k], *request),
        decreases n - i,
    {
        let hit = gen_ratio(rng, rate, MUTATION_RATE_SCALE);
        if hit {
            let a = child.assignments[i];
            let day = match pick(request.days.as_slice(), rng) {
                Some(d) => Some(*d),
                None => None,
            };
            let period = gen_below(rng, bound);
            let room_id = match pick(request.rooms.as_slice(), rng) {
                Some(room) => {
                    proof {
                        lemma_picked_room(request.rooms@, *room);
                    }
                    Some(room.id)
                },
                None => None,
            };
            child.assignments.set(i, redraw_session(a, day, period, room_id));
        }
        proof {
            drawn = drawn.push(hit);
        }
        i = i + 1;
    }
    proof {
        if request.mutation_rate_ppm == 0 {
            assert(child.assignments@ =~= before);
        }
    }
    Ghost(drawn)
}

proof fn lemma_redrawn_stays_placed(old: Assignment, new: Assignment, request: GenerationRequest)
    requires
        placed_within(old, request),
        redrawn(old, new, request),
    ensures
        placed_within(new, request),
{
}

/// The fittest genome's fitness in a population (0 when it is empty).
pub open spec fn best_fitness(p: Seq<Genome>) -> u64
    decreases p.len(),
{
    if p.len() == 0 {
        0
    } else if best_fitness(p.drop_last()) >= p.last().fitness {
        best_fitness(p.drop_last())
    } else {
        p.last().fitness
    }
}

proof fn lemma_best_fitness_bounds(p: Seq<Genome>, k: int)
    requires
        0 <= k < p.len(),
    ensures
        p[k].fitness <= best_fitness(p),
    decreases p.len(),
{
    if k < p.len() - 1 {
        assert(p.drop_last()[k] == p[k]);
        lemma_best_fitness_bounds(p.drop_last(), k);
    }
}

proof fn lemma_best_fitness_attained(p: Seq<Genome>) -> (k: int)
    requires
        p.len() > 0,
    ensures
        0 <= k < p.len(),
        p[k].fitness == best_fitness(p),
    decreases p.len(),
{
    if p.len() == 1 || best_fitness(p.drop_last()) < p.last().fitness {
        p.len() - 1
    } else {
        let k = lemma_best_fitness_attained(p.drop_last());
        assert(p.drop_last()[k] == p[k]);
        k
    }
}

/// One generation of the search, from `prev` to `next`: the same size, every
/// genome valid, the best fitness kept, the best quarter of `prev` (in the
/// order `sorted_by_fitness` gives) copied first, and every other genome bred
/// from tournament winners of the sorted population.
pub open spec fn generation_step(prev: Seq<Genome>, next: Seq<Genome>, request: GenerationRequest) -> bool {
    &&& next.len() == prev.len()
    &&& population_ok(next, request)
    &&& best_fitness(next) >= best_fitness(prev)
    &&& forall|k: int|
        0 <= k < prev.len() / 4 ==> (#[trigger] next[k]).assignments@
            == sorted_by_fitness(prev)[k].assignments@ && next[k].fitness
            == sorted_by_fitness(prev)[k].fitness
    &&& forall|k: int|
        prev.len() / 4 <= k < next.len() ==> bred_from(
            #[trigger] next[k],
            sorted_by_fitness(prev),
            request,
        )
}

/// One generation of the search: the best quarter of the population is kept
/// as it is, and the rest is filled with children of tournament winners,
/// crossed over and mutated. The best fitness never drops from one
/// generation to the next.
pub fn next_generation(population: Vec<Genome>, request: &GenerationRequest, rng: &mut ThreadRng) -> (next: Vec<Genome>)
    requires
        population@.len() >= MIN_POPULATION,
        request.courses.len() == 0 || request.rooms.len() > 0,
        population_ok(population@, *request),
    ensures
        generation_step(population@, next@, *request),
{
    let ghost size = population@.len();
    let mut population = population;
    let ghost unsorted = population@;
    population = sort_by_fitness(population);
    proof {
        lemma_sorted_is_permutation(unsorted);
        assert forall|k: int| 0 <= k < population@.len() implies genome_ok(
            #[trigger] population@[k],
            *request,
        ) by {
            lemma_sorted_keeps_members(unsorted, k);
            let j = choose|j: int| 0 <= j < unsorted.len() && unsorted[j] == population@[k];
        }
    }
    let elite_count = population.len() / 4;
    let mut next: Vec<Genome> = Vec::new();
    let mut e: usize = 0;
    while e < elite_count
        invariant
            e <= elite_count,
            elite_count <= population@.len(),
            next@.len() == e,
            population_ok(population@, *request),
            population_ok(next@, *request),
            e > 0 ==> next@[0].fitness == population@[0].fitness,
            elite_count == population@.len() / 4,
            forall|k: int|
                0 <= k < e ==> (#[trigger] next@[k]).assignments@ == population@[k].assignments@
                    && next@[k].fitness == population@[k].fitness,
        decreases elite_count - e,
    {
        let g = copy_genome(&population[e]);
        assert(genome_ok(population@[e as int], *request));
        next.push(g);
        e = e + 1;
    }
    while next.len() < population.len()
        invariant
            next@.len() <= population@.len(),
            population@.len() == size,
            size >= MIN_POPULATION,
            population_ok(population@, *request),
            population_ok(next@, *request),
            next@.len() > 0,
            next@[0].fitness == population@[0].fitness,
            elite_count == population@.len() / 4,
            next@.len() >= elite_count,
            forall|k: int|
                0 <= k < elite_count ==> (#[trigger] next@[k]).assignments@
                    == population@[k].assignments@ && next@[k].fitness == population@[k].fitness,
            forall|k: int| elite_count <= k < next@.len() ==> bred_from(#[trigger] next@[k], population@, *request),
        decreases population@.len() - next@.len(),
    {
        let (parent_a, drawn_a) = tournament(population.as_slice(), TOURNAMENT_SIZE, rng);
        let (parent_b, drawn_b) = tournament(population.as_slice(), TOURNAMENT_SIZE, rng);
        let (mut child, _flips) = crossover(parent_a, parent_b, rng);
        proof {
            let ka = choose|k: int| 0 <= k < population@.len() && population@[k] == *parent_a;
            let kb = choose|k: int| 0 <= k < population@.len() && population@[k] == *parent_b;
            assert(genome_ok(population@[ka], *request));
            assert(genome_ok(population@[kb], *request));
        }
        let ghost crossed = child.assignments@;
        let _redrawn = mutate(&mut child, request, rng);
        proof {
            let plan = course_plan(request.courses@);
            assert forall|k: int| 0 <= k < child.assignments@.len() implies serves(
                #[trigger] child.assignments@[k],
                plan[k],
            ) && placed_within(child.assignments@[k], *request) by {
                assert(crossed[k] == parent_a.assignments@[k] || crossed[k]
                    == parent_b.assignments@[k]);
                if child.assignments@[k] != crossed[k] {
                    lemma_redrawn_stays_placed(crossed[k], child.assignments@[k], *request);
                }
            }
        }
        child.fitness = fitness(child.assignments.as_slice(), request);
        proof {
            let wa = choose|w: int| is_first_fittest(drawn_a@, w) && parent_a == drawn_a@[w];
            let wb = choose|w: int| is_first_fittest(drawn_b@, w) && parent_b == drawn_b@[w];
            assert forall|k: int| 0 <= k < child.assignments@.len() implies {
                ||| #[trigger] child.assignments@[k] == drawn_a@[wa].assignments@[k]
                ||| child.assignments@[k] == drawn_b@[wb].assignments@[k]
                ||| redrawn(drawn_a@[wa].assignments@[k], child.assignments@[k], *request)
                ||| redrawn(drawn_b@[wb].assignments@[k], child.assignments@[k], *request)
            } by {
                assert(crossed[k] == parent_a.assignments@[k] || crossed[k]
                    == parent_b.assignments@[k]);
            }
            assert(child_of(child.assignments@, drawn_a@[wa].assignments@, drawn_b@[wb].assignments@, *request));
            assert(tournament_won(population@, drawn_a@, wa));
            assert(tournament_won(population@, drawn_b@, wb));
            assert(bred_from(child, population@, *request));
        }
        let ghost before = next@;
        next.push(child);
        proof {
            assert forall|k: int| elite_count <= k < next@.len() implies bred_from(#[trigger] next@[k], population@, *request) by {
                if k < before.len() {
                    assert(next@[k] == before[k]);
                }
            }
        }
    }
    proof {
        let k = lemma_best_fitness_attained(unsorted);
        vstd::seq_lib::to_multiset_contains(unsorted, unsorted[k]);
        vstd::seq_lib::to_multiset_contains(population@, unsorted[k]);
        assert(unsorted.contains(unsorted[k]));
        let j = choose|j: int| 0 <= j < population@.len() && population@[j] == unsorted[k];
        if j > 0 {
            assert(population@[0].fitness >= population@[j].fitness);
        }
        lemma_best_fitness_bounds(next@, 0);
    }
    next
}

/// The timetable of the fittest genome of a population: the first of the
/// highest fitness, which no genome of the population beats.
pub fn fittest_schedule(population: Vec<Genome>) -> (schedule: Schedule)
    requires
        population@.len() > 0,
    ensures
        schedule.assignments@ == sorted_by_fitness(population@)[0].assignments@,
        schedule.fitness == sorted_by_fitness(population@)[0].fitness,
        schedule.fitness == best_fitness(population@),
        forall|k: int| 0 <= k < population@.len() ==> (#[trigger] population@[k]).fitness <= schedule.fitness,
{
    let ghost unsorted = population@;
    let sorted = sort_by_fitness(population);
    proof {
        lemma_sorted_is_permutation(unsorted);
        let k = lemma_best_fitness_attained(unsorted);
        vstd::seq_lib::to_multiset_contains(unsorted, unsorted[k]);
        vstd::seq_lib::to_multiset_contains(sorted@, unsorted[k]);
        assert(unsorted.contains(unsorted[k]));
        let j = choose|j: int| 0 <= j < sorted@.len() && sorted@[j] == unsorted[k];
        if j > 0 {
            assert(sorted@[0].fitness >= sorted@[j].fitness);
        }
        lemma_sorted_keeps_members(unsorted, 0);
        let i = choose|i: int| 0 <= i < unsorted.len() && unsorted[i] == sorted@[0];
        lemma_best_fitness_bounds(unsorted, i);
        assert forall|m: int| 0 <= m < unsorted.len() implies (#[trigger] unsorted[m]).fitness
            <= sorted@[0].fitness by {
            lemma_best_fitness_bounds(unsorted, m);
        }
    }
    let best = &sorted[0];
    Schedule { assignments: copy_assignments(&best.assignments), fitness: best.fitness }
}

/// The size of the population the search keeps.
pub open spec fn search_size(request: GenerationRequest) -> int {
    if request.population_size < MIN_POPULATION {
        MIN_POPULATION as int
    } else {
        request.population_size as int
    }
}

/// The number of generations the search runs.
pub open spec fn search_rounds(request: GenerationRequest) -> int {
    if request.generations == 0 {
        1
    } else {
        request.generations as int
    }
}

/// A run of the search: a first population of valid genomes of the search's
/// size, then one population per generation, each made from the one before
/// by `generation_step`.
pub open spec fn search_trace(trace: Seq<Seq<Genome>>, request: GenerationRequest) -> bool {
    &&& trace.len() >= 1
    &&& trace[0].len() == search_size(request)
    &&& population_ok(trace[0], request)
    &&& forall|g: int|
        #![trigger trace[g]]
        0 <= g < trace.len() - 1 ==> generation_step(trace[g], trace[g + 1], request)
}

/// Evolves a population of random timetables for the requested number of
/// generations (at least one) and returns the fittest timetable of the last
/// generation.
///
/// Each generation is made by `next_generation`, which keeps the best quarter
/// of the population and breeds the rest from tournament winners, so the best
/// fitness never drops; the result is chosen by `fittest_schedule`. Which
/// timetables come out depends on the random draws: the contract states the
/// run as a `search_trace` of populations that every outcome has.
pub fn generate_schedule(request: &GenerationRequest) -> (schedule: Schedule)
    requires
        request.courses.len() == 0 || request.rooms.len() > 0,
    ensures
        fits_request(schedule.assignments@, *request),
        schedule.fitness == request_fitness(schedule.assignments@, *request),
        schedule.fitness <= BASE_SCORE,
        request.courses@.len() == 0 ==> schedule.assignments@.len() == 0 && schedule.fitness
            == BASE_SCORE,
        exists|trace: Seq<Seq<Genome>>|
            #[trigger] search_trace(trace, *request) && trace.len() == search_rounds(*request) + 1
                && schedule.assignments@ == sorted_by_fitness(trace.last())[0].assignments@
                && schedule.fitness == best_fitness(trace.last()) && schedule.fitness
                >= best_fitness(trace[0]),
{
    let mut rng = new_rng();
    let size: usize = if request.population_size < MIN_POPULATION {
        MIN_POPULATION
    } else {
        request.population_size
    };
    let mut population: Vec<Genome> = Vec::new();
    let mut i: usize = 0;
    while i < size
        invariant
            i <= size,
            population@.len() == i,
            request.courses.len() == 0 || request.rooms.len() > 0,
            population_ok(population@, *request),
        decreases size - i,
    {
        let g = random_genome(request, &mut rng);
        population.push(g);
        i = i + 1;
    }
    let rounds: usize = if request.generations == 0 {
        1
    } else {
        request.generations
    };
    let ghost mut trace: Seq<Seq<Genome>> = seq![population@];
    let mut round: usize = 0;
    while round < rounds
        invariant
            round <= rounds,
            rounds == search_rounds(*request),
            population@.len() == size,
            size >= MIN_POPULATION,
            request.courses.len() == 0 || request.rooms.len() > 0,
            population_ok(population@, *request),
            search_trace(trace, *request),
            trace.len() == round + 1,
            trace.last() == population@,
            best_fitness(population@) >= best_fitness(trace[0]),
        decreases rounds - round,
    {
        let ghost prev = population@;
        let ghost before = trace;
        population = next_generation(population, request, &mut rng);
        proof {
            trace = trace.push(population@);
            assert forall|g: int| 0 <= g < trace.len() - 1 implies #[trigger] generation_step(
                trace[g],
                trace[g + 1],
                *request,
            ) by {
                if g < before.len() - 1 {
                    assert(trace[g] == before[g] && trace[g + 1] == before[g + 1]);
                } else {
                    assert(trace[g] == prev && trace[g + 1] == population@);
                }
            }
            assert(trace[0] == before[0]);
        }
        round = round + 1;
    }
    let ghost last = population@;
    let schedule = fittest_schedule(population);
    proof {
        lemma_sorted_is_permutation(last);
        lemma_sorted_keeps_members(last, 0);
        let j = choose|j: int| 0 <= j < last.len() && last[j] == sorted_by_fitness(last)[0];
        assert(genome_ok(last[j], *request));
        assert(search_trace(trace, *request));
    }
    schedule
}

} // verus!
