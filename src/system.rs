use vstd::prelude::*;
use crate::error::GradeError;
use crate::grade::{Grade, GradeLevel, level_of, same_key};
use crate::student::Student;

verus! {

/// Whether some student in `students` has the id `id`.
pub open spec fn has_student(students: Seq<Student>, id: Seq<char>) -> bool {
    exists|i: int| 0 <= i < students.len() && (#[trigger] students[i]).id@ == id
}

/// Whether some grade in `grades` has the same key as `g`.
pub open spec fn has_key(grades: Seq<Grade>, g: Grade) -> bool {
    exists|i: int| 0 <= i < grades.len() && same_key(#[trigger] grades[i], g)
}

/// No two students share an id.
pub open spec fn ids_unique(students: Seq<Student>) -> bool {
    forall|i: int, j: int|
        0 <= i < students.len() && 0 <= j < students.len() && i != j ==> (#[trigger] students[i]).id@
            != (#[trigger] students[j]).id@
}

/// No two grades share a (student id, subject, semester) key.
pub open spec fn keys_unique(grades: Seq<Grade>) -> bool {
    forall|i: int, j: int|
        0 <= i < grades.len() && 0 <= j < grades.len() && i != j ==> !same_key(
            #[trigger] grades[i],
            #[trigger] grades[j],
        )
}

/// Every grade refers to a registered student.
pub open spec fn grades_referenced(students: Seq<Student>, grades: Seq<Grade>) -> bool {
    forall|i: int| 0 <= i < grades.len() ==> has_student(students, (#[trigger] grades[i]).student_id@)
}

/// The invariants of a store holding `students` and `grades`.
pub open spec fn store_wf(students: Seq<Student>, grades: Seq<Grade>) -> bool {
    &&& ids_unique(students)
    &&& keys_unique(grades)
    &&& grades_referenced(students, grades)
}

/// The grades of `grades` that satisfy `p`, in their order.
pub open spec fn select(grades: Seq<Grade>, p: spec_fn(Grade) -> bool) -> Seq<Grade>
    decreases grades.len(),
{
    if grades.len() == 0 {
        grades
    } else {
        let rest = select(grades.drop_last(), p);
        if p(grades.last()) {
            rest.push(grades.last())
        } else {
            rest
        }
    }
}

/// Grades of the student `id`.
pub open spec fn of_student(id: Seq<char>) -> spec_fn(Grade) -> bool {
    |g: Grade| g.student_id@ == id
}

/// Grades of any student but `id`.
pub open spec fn not_of_student(id: Seq<char>) -> spec_fn(Grade) -> bool {
    |g: Grade| g.student_id@ != id
}

/// Grades of the student `id` in `semester`.
pub open spec fn of_student_in(id: Seq<char>, semester: Seq<char>) -> spec_fn(Grade) -> bool {
    |g: Grade| g.student_id@ == id && g.semester@ == semester
}

/// Grades in `subject` in `semester`.
pub open spec fn of_subject_in(subject: Seq<char>, semester: Seq<char>) -> spec_fn(Grade) -> bool {
    |g: Grade| g.subject@ == subject && g.semester@ == semester
}

/// Grades whose level is `level`.
pub open spec fn at_level(level: GradeLevel) -> spec_fn(Grade) -> bool {
    |g: Grade| level_of(g.score as int) == level
}

/// Whether `g` has the key (student_id, subject, semester).
pub open spec fn has_key_parts(
    g: Grade,
    student_id: Seq<char>,
    subject: Seq<char>,
    semester: Seq<char>,
) -> bool {
    &&& g.student_id@ == student_id
    &&& g.subject@ == subject
    &&& g.semester@ == semester
}

/// `g` with its score replaced by `score`.
pub open spec fn with_score(g: Grade, score: i32) -> Grade {
    Grade { student_id: g.student_id, subject: g.subject, score, semester: g.semester }
}

/// The sum of the scores of `grades`, in hundredths of a point.
pub open spec fn score_total(grades: Seq<Grade>) -> int
    decreases grades.len(),
{
    if grades.len() == 0 {
        0
    } else {
        score_total(grades.drop_last()) + grades.last().score
    }
}

/// Whether the references in `refs` point, in order, to the grades of `grades`.
pub open spec fn refers_to(refs: Seq<&Grade>, grades: Seq<Grade>) -> bool {
    &&& refs.len() == grades.len()
    &&& forall|i: int| 0 <= i < refs.len() ==> *(#[trigger] refs[i]) == grades[i]
}

/// Unfolds `select` on a prefix that grows by one element.
proof fn lemma_select_step(grades: Seq<Grade>, p: spec_fn(Grade) -> bool, i: int)
    requires
        0 <= i < grades.len(),
    ensures
        select(grades.subrange(0, i + 1), p) == if p(grades[i]) {
            select(grades.subrange(0, i), p).push(grades[i])
        } else {
            select(grades.subrange(0, i), p)
        },
{
    assert(grades.subrange(0, i + 1).drop_last() =~= grades.subrange(0, i));
}

/// `select` on a sequence extended by one element.
proof fn lemma_select_push(grades: Seq<Grade>, g: Grade, p: spec_fn(Grade) -> bool)
    ensures
        select(grades.push(g), p) == if p(g) {
            select(grades, p).push(g)
        } else {
            select(grades, p)
        },
{
    assert(grades.push(g).drop_last() =~= grades);
}

/// Once a grade is stored, any grade with the same (student id, subject, semester) key is a
/// duplicate, whatever its score: `add_grade` then refuses it with `DuplicateGrade` and leaves the
/// stored grade, score included, as it was.
pub proof fn lemma_same_key_is_duplicate(grades: Seq<Grade>, first: Grade, second: Grade)
    requires
        same_key(first, second),
    ensures
        has_key(grades.push(first), second),
{
    assert(grades.push(first)[grades.len() as int] == first);
}

/// After the grades of a student are removed, none of that student's grades is left: the grades
/// `remove_student` keeps select nothing for `get_student_grades`.
pub proof fn lemma_removed_student_has_no_grades(grades: Seq<Grade>, id: Seq<char>)
    ensures
        select(select(grades, not_of_student(id)), of_student(id)) == Seq::<Grade>::empty(),
    decreases grades.len(),
{
    if grades.len() > 0 {
        lemma_removed_student_has_no_grades(grades.drop_last(), id);
        lemma_select_push(select(grades.drop_last(), not_of_student(id)), grades.last(), of_student(id));
    }
}

/// How many of `grades` are at `level`.
pub open spec fn level_count(grades: Seq<Grade>, level: GradeLevel) -> nat {
    select(grades, at_level(level)).len()
}

/// The counts of the five levels add up to the number of grades counted.
pub proof fn lemma_level_counts_sum(grades: Seq<Grade>)
    ensures
        level_count(grades, GradeLevel::A) + level_count(grades, GradeLevel::B) + level_count(
            grades,
            GradeLevel::C,
        ) + level_count(grades, GradeLevel::D) + level_count(grades, GradeLevel::F)
            == grades.len(),
    decreases grades.len(),
{
    if grades.len() > 0 {
        lemma_level_counts_sum(grades.drop_last());
    }
}

/// The number of grades at each of the five levels, every level present.
#[derive(Debug, Clone, Copy, PartialEq, Eq, Structural)]
pub struct SubjectStatistics {
    pub a: usize,
    pub b: usize,
    pub c: usize,
    pub d: usize,
    pub f: usize,
}

impl SubjectStatistics {
    pub open spec fn count_spec(self, level: GradeLevel) -> usize {
        match level {
            GradeLevel::A => self.a,
            GradeLevel::B => self.b,
            GradeLevel::C => self.c,
            GradeLevel::D => self.d,
            GradeLevel::F => self.f,
        }
    }

    /// The number of grades counted at `level`.
    pub fn count(&self, level: GradeLevel) -> (r: usize)
        ensures
            r == self.count_spec(level),
    {
        match level {
            GradeLevel::A => self.a,
            GradeLevel::B => self.b,
            GradeLevel::C => self.c,
            GradeLevel::D => self.d,
            GradeLevel::F => self.f,
        }
    }
}

/// The scores of a non-empty set of grades, kept as their exact total and their number: the mean
/// score, in hundredths of a point, is `total / count`.
#[derive(Debug, Clone, Copy, PartialEq, Eq, Structural)]
pub struct Average {
    /// The sum of the scores, in hundredths of a point.
    pub total: i128,
    /// How many scores were summed; never zero.
    pub count: usize,
}

/// Whether the pairs in `pairs` join, in order, each grade of `grades` with its student from
/// `students`.
pub open spec fn joins(
    pairs: Seq<(&Student, &Grade)>,
    students: Seq<Student>,
    grades: Seq<Grade>,
) -> bool {
    &&& pairs.len() == grades.len()
    &&& forall|i: int|
        0 <= i < pairs.len() ==> {
            &&& *(#[trigger] pairs[i]).1 == grades[i]
            &&& pairs[i].0.id@ == grades[i].student_id@
            &&& students.contains(*pairs[i].0)
        }
}

/// Registers `students` one after another into an empty store: the resulting students, or the
/// error of the first student whose id was already taken.
pub open spec fn replay_students(students: Seq<Student>) -> Result<Seq<Student>, GradeError>
    decreases students.len(),
{
    if students.len() == 0 {
        Ok(Seq::<Student>::empty())
    } else {
        match replay_students(students.drop_last()) {
            Ok(before) => if has_student(before, students.last().id@) {
                Err(GradeError::DuplicateStudent)
            } else {
                Ok(before.push(students.last()))
            },
            Err(e) => Err(e),
        }
    }
}

/// Adds `grades` one after another to the stored grades `base`, with `students` registered: the
/// resulting grades, or the error of the first grade that `add_grade` would refuse.
pub open spec fn replay_grades(students: Seq<Student>, base: Seq<Grade>, grades: Seq<Grade>) -> Result<
    Seq<Grade>,
    GradeError,
>
    decreases grades.len(),
{
    if grades.len() == 0 {
        Ok(base)
    } else {
        match replay_grades(students, base, grades.drop_last()) {
            Ok(before) => if !has_student(students, grades.last().student_id@) {
                Err(GradeError::StudentNotFound)
            } else if has_key(before, grades.last()) {
                Err(GradeError::DuplicateGrade)
            } else {
                Ok(before.push(grades.last()))
            },
            Err(e) => Err(e),
        }
    }
}

/// Once the replay of a prefix fails, the replay of the whole sequence fails the same way.
proof fn lemma_replay_grades_error(
    students: Seq<Student>,
    base: Seq<Grade>,
    grades: Seq<Grade>,
    n: int,
)
    requires
        0 <= n <= grades.len(),
        replay_grades(students, base, grades.subrange(0, n)) is Err,
    ensures
        replay_grades(students, base, grades) == replay_grades(
            students,
            base,
            grades.subrange(0, n),
        ),
    decreases grades.len() - n,
{
    if n < grades.len() {
        assert(grades.subrange(0, n + 1).drop_last() =~= grades.subrange(0, n));
        lemma_replay_grades_error(students, base, grades, n + 1);
    } else {
        assert(grades.subrange(0, n) =~= grades);
    }
}

/// An in-memory registry of students and grades. Student ids are unique, grade keys are unique,
/// and every grade refers to a registered student.
#[derive(Debug)]
pub struct GradeManagementSystem {
    students: Vec<Student>,
    grades: Vec<Grade>,
}

impl GradeManagementSystem {
    /// The registered students, in the order they were added.
    pub closed spec fn student_seq(&self) -> Seq<Student> {
        self.students@
    }

    /// The stored grades, in the order they were added.
    pub closed spec fn grade_seq(&self) -> Seq<Grade> {
        self.grades@
    }

    pub open spec fn wf(&self) -> bool {
        store_wf(self.student_seq(), self.grade_seq())
    }

    pub fn new() -> (r: GradeManagementSystem)
        ensures
            r.wf(),
            r.student_seq() == Seq::<Student>::empty(),
            r.grade_seq() == Seq::<Grade>::empty(),
    {
        GradeManagementSystem { students: Vec::new(), grades: Vec::new() }
    }

    /// The position of the student `id`, if registered.
    fn find_student(&self, id: &String) -> (r: Option<usize>)
        ensures
            match r {
                Some(i) => i < self.students@.len() && self.students@[i as int].id@ == id@,
                None => !has_student(self.students@, id@),
            },
    {
        let mut i: usize = 0;
        while i < self.students.len()
            invariant
                i <= self.students@.len(),
                forall|k: int| 0 <= k < i ==> (#[trigger] self.students@[k]).id@ != id@,
            decreases self.students@.len() - i,
        {
            if self.students[i].id == *id {
                return Some(i);
            }
            i += 1;
        }
        None
    }

    /// Registers `student` if no student with its id is registered yet.
    pub fn add_student(&mut self, student: Student) -> (r: Result<(), GradeError>)
        requires
            old(self).wf(),
        ensures
            final(self).wf(),
            has_student(old(self).student_seq(), student.id@) ==> r == Err::<(), GradeError>(
                GradeError::DuplicateStudent,
            ) && *final(self) == *old(self),
            !has_student(old(self).student_seq(), student.id@) ==> r is Ok
                && final(self).student_seq() == old(self).student_seq().push(student)
                && final(self).grade_seq() == old(self).grade_seq(),
    {
        match self.find_student(&student.id) {
            Some(_) => Err(GradeError::DuplicateStudent),
            None => {
                let ghost old_students = self.students@;
                self.students.push(student);
                assert forall|i: int| 0 <= i < self.grades@.len() implies has_student(
                    self.students@,
                    (#[trigger] self.grades@[i]).student_id@,
                ) by {
                    let k = choose|k: int|
                        0 <= k < old_students.len() && (#[trigger] old_students[k]).id@
                            == self.grades@[i].student_id@;
                    assert(self.students@[k] == old_students[k]);
                }
                Ok(())
            },
        }
    }
    /// The position of the grade whose key is (student_id, subject, semester), if any.
    fn find_grade(&self, student_id: &String, subject: &String, semester: &String) -> (r: Option<
        usize,
    >)
        ensures
            match r {
                Some(i) => i < self.grades@.len() && has_key_parts(
                    self.grades@[i as int],
                    student_id@,
                    subject@,
                    semester@,
                ),
                None => forall|k: int|
                    0 <= k < self.grades@.len() ==> !has_key_parts(
                        #[trigger] self.grades@[k],
                        student_id@,
                        subject@,
                        semester@,
                    ),
            },
    {
        let mut i: usize = 0;
        while i < self.grades.len()
            invariant
                i <= self.grades@.len(),
                forall|k: int|
                    0 <= k < i ==> !has_key_parts(
                        #[trigger] self.grades@[k],
                        student_id@,
                        subject@,
                        semester@,
                    ),
            decreases self.grades@.len() - i,
        {
            let g = &self.grades[i];
            if g.student_id == *student_id && g.subject == *subject && g.semester == *semester {
                return Some(i);
            }
            i += 1;
        }
        None
    }

    /// Stores `grade` if its student is registered and no grade with its key exists.
    pub fn add_grade(&mut self, grade: Grade) -> (r: Result<(), GradeError>)
        requires
            old(self).wf(),
        ensures
            final(self).wf(),
            !has_student(old(self).student_seq(), grade.student_id@) ==> r == Err::<
                (),
                GradeError,
            >(GradeError::StudentNotFound) && *final(self) == *old(self),
            has_student(old(self).student_seq(), grade.student_id@) && has_key(
                old(self).grade_seq(),
                grade,
            ) ==> r == Err::<(), GradeError>(GradeError::DuplicateGrade) && *final(self)
                == *old(self),
            has_student(old(self).student_seq(), grade.student_id@) && !has_key(
                old(self).grade_seq(),
                grade,
            ) ==> r is Ok && final(self).student_seq() == old(self).student_seq()
                && final(self).grade_seq() == old(self).grade_seq().push(grade),
    {
        if self.find_student(&grade.student_id).is_none() {
            return Err(GradeError::StudentNotFound);
        }
        if self.find_grade(&grade.student_id, &grade.subject, &grade.semester).is_some() {
            return Err(GradeError::DuplicateGrade);
        }
        let ghost old_grades = self.grades@;
        self.grades.push(grade);
        assert forall|i: int, j: int|
            0 <= i < self.grades@.len() && 0 <= j < self.grades@.len() && i != j implies !same_key(
            #[trigger] self.grades@[i],
            #[trigger] self.grades@[j],
        ) by {
            if i < old_grades.len() && j < old_grades.len() {
                assert(self.grades@[i] == old_grades[i]);
                assert(self.grades@[j] == old_grades[j]);
            } else if i < old_grades.len() {
                assert(self.grades@[i] == old_grades[i]);
            } else {
                assert(self.grades@[j] == old_grades[j]);
            }
        }
        assert forall|i: int| 0 <= i < self.grades@.len() implies has_student(
            self.students@,
            (#[trigger] self.grades@[i]).student_id@,
        ) by {
            if i < old_grades.len() {
                assert(self.grades@[i] == old_grades[i]);
            }
        }
        Ok(())
    }

    /// The student with id `student_id`, if registered.
    pub fn get_student(&self, student_id: &str) -> (r: Option<&Student>)
        ensures
            match r {
                Some(s) => exists|i: int|
                    0 <= i < self.student_seq().len() && *s == #[trigger] self.student_seq()[i]
                        && s.id@ == student_id@,
                None => !has_student(self.student_seq(), student_id@),
            },
    {
        let id = student_id.to_owned();
        match self.find_student(&id) {
            Some(i) => {
                assert(self.student_seq()[i as int] == self.students@[i as int]);
                Some(&self.students[i])
            },
            None => None,
        }
    }

    /// Every grade of the student `student_id`, in the order they were added.
    pub fn get_student_grades(&self, student_id: &str) -> (r: Vec<&Grade>)
        ensures
            refers_to(r@, select(self.grade_seq(), of_student(student_id@))),
    {
        let id = student_id.to_owned();
        let mut r: Vec<&Grade> = Vec::new();
        let mut i: usize = 0;
        while i < self.grades.len()
            invariant
                i <= self.grades@.len(),
                id@ == student_id@,
                refers_to(r@, select(self.grades@.subrange(0, i as int), of_student(student_id@))),
            decreases self.grades@.len() - i,
        {
            proof {
                lemma_select_step(self.grades@, of_student(student_id@), i as int);
            }
            if self.grades[i].student_id == id {
                r.push(&self.grades[i]);
            }
            i += 1;
        }
        assert(self.grades@.subrange(0, i as int) =~= self.grades@);
        r
    }
    /// Removes the student `student_id` together with every grade that refers to it.
    pub fn remove_student(&mut self, student_id: &str) -> (r: Result<(), GradeError>)
        requires
            old(self).wf(),
        ensures
            final(self).wf(),
            !has_student(old(self).student_seq(), student_id@) ==> r == Err::<(), GradeError>(
                GradeError::StudentNotFound,
            ) && *final(self) == *old(self),
            has_student(old(self).student_seq(), student_id@) ==> r is Ok && (exists|k: int|
                0 <= k < old(self).student_seq().len() && (#[trigger] old(self).student_seq()[k]).id@
                    == student_id@ && final(self).student_seq() == old(self).student_seq().remove(k))
                && final(self).grade_seq() == select(
                old(self).grade_seq(),
                not_of_student(student_id@),
            ),
    {
        let id = student_id.to_owned();
        let k = match self.find_student(&id) {
            Some(k) => k,
            None => {
                return Err(GradeError::StudentNotFound);
            },
        };
        let ghost old_students = self.students@;
        let ghost old_grades = self.grades@;
        self.students.remove(k);
        let mut kept: Vec<Grade> = Vec::new();
        let mut i: usize = 0;
        while i < self.grades.len()
            invariant
                i <= self.grades@.len(),
                id@ == student_id@,
                self.grades@ == old_grades,
                kept@ == select(old_grades.subrange(0, i as int), not_of_student(student_id@)),
                forall|j: int|
                    0 <= j < kept@.len() ==> exists|m: int|
                        0 <= m < i && #[trigger] kept@[j] == #[trigger] old_grades[m],
                forall|j: int| 0 <= j < kept@.len() ==> (#[trigger] kept@[j]).student_id@ != id@,
                keys_unique(old_grades),
                keys_unique(kept@),
            decreases self.grades@.len() - i,
        {
            proof {
                lemma_select_step(old_grades, not_of_student(student_id@), i as int);
            }
            if self.grades[i].student_id != id {
                let g = self.grades[i].clone();
                let ghost before = kept@;
                kept.push(g);
                assert forall|a: int, b: int|
                    0 <= a < kept@.len() && 0 <= b < kept@.len() && a != b implies !same_key(
                    #[trigger] kept@[a],
                    #[trigger] kept@[b],
                ) by {
                    if a < before.len() && b < before.len() {
                        assert(kept@[a] == before[a]);
                        assert(kept@[b] == before[b]);
                    } else if a < before.len() {
                        assert(kept@[a] == before[a]);
                        let m = choose|m: int| 0 <= m < i && before[a] == old_grades[m];
                        assert(kept@[b] == old_grades[i as int]);
                    } else {
                        assert(kept@[b] == before[b]);
                        let m = choose|m: int| 0 <= m < i && before[b] == old_grades[m];
                        assert(kept@[a] == old_grades[i as int]);
                    }
                }
                assert forall|j: int| 0 <= j < kept@.len() implies exists|m: int|
                    0 <= m < i + 1 && #[trigger] kept@[j] == #[trigger] old_grades[m] by {
                    if j < before.len() {
                        assert(kept@[j] == before[j]);
                    } else {
                        assert(kept@[j] == old_grades[i as int]);
                    }
                }
            }
            i += 1;
        }
        assert(old_grades.subrange(0, i as int) =~= old_grades);
        self.grades = kept;
        assert forall|j: int| 0 <= j < self.grades@.len() implies has_student(
            self.students@,
            (#[trigger] self.grades@[j]).student_id@,
        ) by {
            let m = choose|m: int| 0 <= m < old_grades.len() && self.grades@[j] == old_grades[m];
            let n = choose|n: int|
                0 <= n < old_students.len() && (#[trigger] old_students[n]).id@
                    == old_grades[m].student_id@;
            if n < k {
                assert(self.students@[n] == old_students[n]);
            } else {
                assert(self.students@[n - 1] == old_students[n]);
            }
        }
        assert forall|a: int, b: int|
            0 <= a < self.students@.len() && 0 <= b < self.students@.len() && a != b implies (#[trigger] self.students@[a]).id@
            != (#[trigger] self.students@[b]).id@ by {
            let a0 = if a < k { a } else { a + 1 };
            let b0 = if b < k { b } else { b + 1 };
            assert(self.students@[a] == old_students[a0]);
            assert(self.students@[b] == old_students[b0]);
        }
        assert(old_students[k as int].id@ == student_id@);
        Ok(())
    }

    /// Replaces the score of the grade keyed (student_id, subject, semester).
    pub fn update_grade(&mut self, student_id: &str, subject: &str, semester: &str, new_score: i32)
        -> (r: Result<(), GradeError>)
        requires
            old(self).wf(),
        ensures
            final(self).wf(),
            final(self).student_seq() == old(self).student_seq(),
            match r {
                Ok(()) => exists|k: int|
                    0 <= k < old(self).grade_seq().len() && has_key_parts(
                        #[trigger] old(self).grade_seq()[k],
                        student_id@,
                        subject@,
                        semester@,
                    ) && final(self).grade_seq() == old(self).grade_seq().update(
                        k,
                        with_score(old(self).grade_seq()[k], new_score),
                    ),
                Err(e) => e == GradeError::GradeNotFound && *final(self) == *old(self) && forall|
                    k: int,
                |
                    0 <= k < old(self).grade_seq().len() ==> !has_key_parts(
                        #[trigger] old(self).grade_seq()[k],
                        student_id@,
                        subject@,
                        semester@,
                    ),
            },
    {
        let id = student_id.to_owned();
        let sub = subject.to_owned();
        let sem = semester.to_owned();
        match self.find_grade(&id, &sub, &sem) {
            Some(k) => {
                let ghost old_grades = self.grades@;
                self.grades[k].update_score(new_score);
                assert(self.grades@ == old_grades.update(k as int, with_score(old_grades[k as int], new_score)));
                assert forall|i: int, j: int|
                    0 <= i < self.grades@.len() && 0 <= j < self.grades@.len() && i != j implies !same_key(
                    #[trigger] self.grades@[i],
                    #[trigger] self.grades@[j],
                ) by {
                    assert(same_key(self.grades@[i], old_grades[i]));
                    assert(same_key(self.grades@[j], old_grades[j]));
                }
                assert forall|i: int| 0 <= i < self.grades@.len() implies has_student(
                    self.students@,
                    (#[trigger] self.grades@[i]).student_id@,
                ) by {
                    assert(self.grades@[i].student_id == old_grades[i].student_id);
                }
                Ok(())
            },
            None => Err(GradeError::GradeNotFound),
        }
    }
    /// Every grade of the student `student_id` in `semester`, in the order they were added.
    pub fn get_student_semester_grades(&self, student_id: &str, semester: &str) -> (r: Vec<&Grade>)
        ensures
            refers_to(r@, select(self.grade_seq(), of_student_in(student_id@, semester@))),
    {
        let id = student_id.to_owned();
        let sem = semester.to_owned();
        let mut r: Vec<&Grade> = Vec::new();
        let mut i: usize = 0;
        while i < self.grades.len()
            invariant
                i <= self.grades@.len(),
                id@ == student_id@,
                sem@ == semester@,
                refers_to(
                    r@,
                    select(
                        self.grades@.subrange(0, i as int),
                        of_student_in(student_id@, semester@),
                    ),
                ),
            decreases self.grades@.len() - i,
        {
            proof {
                lemma_select_step(self.grades@, of_student_in(student_id@, semester@), i as int);
            }
            if self.grades[i].student_id == id && self.grades[i].semester == sem {
                r.push(&self.grades[i]);
            }
            i += 1;
        }
        assert(self.grades@.subrange(0, i as int) =~= self.grades@);
        r
    }

    /// The mean score of the student `student_id` in `semester`, as an exact total and count;
    /// `None` when there is no such grade.
    pub fn calculate_semester_average(&self, student_id: &str, semester: &str) -> (r: Option<
        Average,
    >)
        ensures
            ({
                let chosen = select(self.grade_seq(), of_student_in(student_id@, semester@));
                match r {
                    None => chosen.len() == 0,
                    Some(avg) => chosen.len() > 0 && avg.count == chosen.len() && avg.total
                        == score_total(chosen),
                }
            }),
    {
        let chosen = self.get_student_semester_grades(student_id, semester);
        if chosen.len() == 0 {
            return None;
        }
        let ghost sel = select(self.grade_seq(), of_student_in(student_id@, semester@));
        let mut total: i128 = 0;
        let mut i: usize = 0;
        while i < chosen.len()
            invariant
                i <= chosen@.len(),
                refers_to(chosen@, sel),
                total == score_total(sel.subrange(0, i as int)),
                -(i as int) * 2147483648 <= total <= (i as int) * 2147483648,
                i <= usize::MAX,
            decreases chosen@.len() - i,
        {
            assert(sel.subrange(0, i + 1).drop_last() =~= sel.subrange(0, i as int));
            total = total + chosen[i].score as i128;
            i += 1;
        }
        assert(sel.subrange(0, i as int) =~= sel);
        Some(Average { total, count: chosen.len() })
    }

    /// Every registered student, in the order they were added.
    pub fn get_all_students(&self) -> (r: Vec<&Student>)
        ensures
            r@.len() == self.student_seq().len(),
            forall|i: int| 0 <= i < r@.len() ==> *(#[trigger] r@[i]) == self.student_seq()[i],
    {
        let mut r: Vec<&Student> = Vec::new();
        let mut i: usize = 0;
        while i < self.students.len()
            invariant
                i <= self.students@.len(),
                r@.len() == i,
                forall|k: int| 0 <= k < i ==> *(#[trigger] r@[k]) == self.students@[k],
            decreases self.students@.len() - i,
        {
            r.push(&self.students[i]);
            i += 1;
        }
        r
    }

    /// Every stored grade, in the order they were added.
    pub fn get_all_grades(&self) -> (r: Vec<&Grade>)
        ensures
            refers_to(r@, self.grade_seq()),
    {
        let mut r: Vec<&Grade> = Vec::new();
        let mut i: usize = 0;
        while i < self.grades.len()
            invariant
                i <= self.grades@.len(),
                r@.len() == i,
                forall|k: int| 0 <= k < i ==> *(#[trigger] r@[k]) == self.grades@[k],
            decreases self.grades@.len() - i,
        {
            r.push(&self.grades[i]);
            i += 1;
        }
        r
    }

    /// Each grade in `subject` in `semester` together with its student, in the order the grades
    /// were added. A grade whose student is not registered would be left out; in a well-formed
    /// store there is none.
    pub fn get_subject_grades(&self, subject: &str, semester: &str) -> (r: Vec<(&Student, &Grade)>)
        requires
            self.wf(),
        ensures
            joins(r@, self.student_seq(), select(self.grade_seq(), of_subject_in(subject@, semester@))),
    {
        let sub = subject.to_owned();
        let sem = semester.to_owned();
        let mut r: Vec<(&Student, &Grade)> = Vec::new();
        let mut i: usize = 0;
        while i < self.grades.len()
            invariant
                i <= self.grades@.len(),
                sub@ == subject@,
                sem@ == semester@,
                self.wf(),
                joins(
                    r@,
                    self.students@,
                    select(self.grades@.subrange(0, i as int), of_subject_in(subject@, semester@)),
                ),
            decreases self.grades@.len() - i,
        {
            proof {
                lemma_select_step(self.grades@, of_subject_in(subject@, semester@), i as int);
            }
            let g = &self.grades[i];
            if g.subject == sub && g.semester == sem {
                match self.find_student(&g.student_id) {
                    Some(k) => {
                        assert(self.students@.contains(self.students@[k as int]));
                        r.push((&self.students[k], g));
                    },
                    None => {
                        assert(has_student(self.students@, self.grades@[i as int].student_id@));
                    },
                }
            }
            i += 1;
        }
        assert(self.grades@.subrange(0, i as int) =~= self.grades@);
        r
    }

    /// How many grades in `subject` in `semester` fall into each level.
    pub fn get_subject_statistics(&self, subject: &str, semester: &str) -> (r: SubjectStatistics)
        ensures
            forall|level: GradeLevel|
                #[trigger] r.count_spec(level) == level_count(
                    select(self.grade_seq(), of_subject_in(subject@, semester@)),
                    level,
                ),
            r.a + r.b + r.c + r.d + r.f == select(
                self.grade_seq(),
                of_subject_in(subject@, semester@),
            ).len(),
    {
        let sub = subject.to_owned();
        let sem = semester.to_owned();
        let ghost p = of_subject_in(subject@, semester@);
        let mut stats = SubjectStatistics { a: 0, b: 0, c: 0, d: 0, f: 0 };
        let mut i: usize = 0;
        while i < self.grades.len()
            invariant
                i <= self.grades@.len(),
                sub@ == subject@,
                sem@ == semester@,
                p == of_subject_in(subject@, semester@),
                select(self.grades@.subrange(0, i as int), p).len() <= i,
                forall|level: GradeLevel|
                    #[trigger] stats.count_spec(level) == level_count(
                        select(self.grades@.subrange(0, i as int), p),
                        level,
                    ),
            decreases self.grades@.len() - i,
        {
            let ghost before = select(self.grades@.subrange(0, i as int), p);
            proof {
                lemma_select_step(self.grades@, p, i as int);
                lemma_level_counts_sum(before);
                assert(stats.count_spec(GradeLevel::A) == level_count(before, GradeLevel::A));
                assert(stats.count_spec(GradeLevel::B) == level_count(before, GradeLevel::B));
                assert(stats.count_spec(GradeLevel::C) == level_count(before, GradeLevel::C));
                assert(stats.count_spec(GradeLevel::D) == level_count(before, GradeLevel::D));
                assert(stats.count_spec(GradeLevel::F) == level_count(before, GradeLevel::F));
            }
            let g = &self.grades[i];
            if g.subject == sub && g.semester == sem {
                proof {
                    lemma_select_push(before, *g, at_level(GradeLevel::A));
                    lemma_select_push(before, *g, at_level(GradeLevel::B));
                    lemma_select_push(before, *g, at_level(GradeLevel::C));
                    lemma_select_push(before, *g, at_level(GradeLevel::D));
                    lemma_select_push(before, *g, at_level(GradeLevel::F));
                }
                match g.level() {
                    GradeLevel::A => stats.a = stats.a + 1,
                    GradeLevel::B => stats.b = stats.b + 1,
                    GradeLevel::C => stats.c = stats.c + 1,
                    GradeLevel::D => stats.d = stats.d + 1,
                    GradeLevel::F => stats.f = stats.f + 1,
                }
            }
            proof {
                let after = select(self.grades@.subrange(0, i + 1), p);
                assert forall|level: GradeLevel| #[trigger]
                    stats.count_spec(level) == level_count(after, level) by {
                    match level {
                        GradeLevel::A => {},
                        GradeLevel::B => {},
                        GradeLevel::C => {},
                        GradeLevel::D => {},
                        GradeLevel::F => {},
                    }
                }
            }
            i += 1;
        }
        assert(self.grades@.subrange(0, i as int) =~= self.grades@);
        proof {
            lemma_level_counts_sum(select(self.grade_seq(), p));
            assert(stats.count_spec(GradeLevel::A) == stats.a);
            assert(stats.count_spec(GradeLevel::B) == stats.b);
            assert(stats.count_spec(GradeLevel::C) == stats.c);
            assert(stats.count_spec(GradeLevel::D) == stats.d);
            assert(stats.count_spec(GradeLevel::F) == stats.f);
        }
        stats
    }
    /// Adds `grades` in order as `add_grade` would, all or nothing: when one of them is refused,
    /// its error is returned and the store is left as it was.
    pub fn add_grades(&mut self, grades: Vec<Grade>) -> (r: Result<(), GradeError>)
        requires
            old(self).wf(),
        ensures
            final(self).wf(),
            final(self).student_seq() == old(self).student_seq(),
            match replay_grades(old(self).student_seq(), old(self).grade_seq(), grades@) {
                Ok(after) => r is Ok && final(self).grade_seq() == after,
                Err(e) => r == Err::<(), GradeError>(e) && final(self).grade_seq() == old(
                    self,
                ).grade_seq(),
            },
    {
        let ghost old_students = self.students@;
        let ghost old_grades = self.grades@;
        let n0 = self.grades.len();
        let ghost all = grades@;
        let mut i: usize = 0;
        while i < grades.len()
            invariant
                self.wf(),
                old_students == old(self).students@,
                old_grades == old(self).grades@,
                self.students@ == old_students,
                n0 == old_grades.len(),
                self.grades@.len() >= n0,
                self.grades@.subrange(0, n0 as int) == old_grades,
                i <= all.len(),
                all == grades@,
                replay_grades(old_students, old_grades, all.subrange(0, i as int)) == Ok::<
                    Seq<Grade>,
                    GradeError,
                >(self.grades@),
            decreases all.len() - i,
        {
            let ghost before = self.grades@;
            let g = grades[i].clone();
            assert(all.subrange(0, i + 1).drop_last() =~= all.subrange(0, i as int));
            match self.add_grade(g) {
                Ok(()) => {
                    assert(self.grades@.subrange(0, n0 as int) =~= before.subrange(0, n0 as int));
                },
                Err(e) => {
                    assert(self.students@ == old_students);
                    self.grades.truncate(n0);
                    assert(self.grades@ =~= old_grades);
                    proof {
                        lemma_replay_grades_error(old_students, old_grades, all, i as int + 1);
                    }
                    return Err(e);
                },
            }
            i += 1;
        }
        assert(all.subrange(0, i as int) =~= all);
        Ok(())
    }
}

} // verus!
