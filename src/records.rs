use vstd::prelude::*;
use crate::error::GradeError;
use crate::grade::{Grade, level_of, same_key};
use crate::score_text::{
    format_score,
    lemma_score_text_round_trip,
    parse_score,
    score_of_text,
    score_text,
};
use crate::student::Student;
use crate::system::{
    GradeManagementSystem,
    grades_referenced,
    has_key,
    has_student,
    ids_unique,
    keys_unique,
    of_student,
    of_student_in,
    refers_to,
    replay_grades,
    replay_students,
    select,
    store_wf,
};

verus! {

/// The whole content of a store as plain records: what a snapshot file holds.
#[derive(Debug)]
pub struct SystemData {
    pub students: Vec<Student>,
    pub grades: Vec<Grade>,
}

/// Rebuilds a store from records by registering the students and then adding the grades, in
/// order, through the store's own checks: the resulting students and grades, or the first error.
pub open spec fn replay(students: Seq<Student>, grades: Seq<Grade>) -> Result<
    (Seq<Student>, Seq<Grade>),
    GradeError,
> {
    match replay_students(students) {
        Ok(ss) => match replay_grades(ss, Seq::<Grade>::empty(), grades) {
            Ok(gs) => Ok((ss, gs)),
            Err(e) => Err(e),
        },
        Err(e) => Err(e),
    }
}

impl SystemData {
    /// Copies every student and every grade of `system`, in order.
    pub fn from_system(system: &GradeManagementSystem) -> (r: SystemData)
        ensures
            r.students@ == system.student_seq(),
            r.grades@ == system.grade_seq(),
    {
        let all_students = system.get_all_students();
        let all_grades = system.get_all_grades();
        let mut students: Vec<Student> = Vec::new();
        let mut i: usize = 0;
        while i < all_students.len()
            invariant
                i <= all_students@.len(),
                all_students@.len() == system.student_seq().len(),
                forall|k: int|
                    0 <= k < all_students@.len() ==> *(#[trigger] all_students@[k])
                        == system.student_seq()[k],
                students@ == system.student_seq().subrange(0, i as int),
            decreases all_students@.len() - i,
        {
            students.push(all_students[i].clone());
            i += 1;
            assert(students@ =~= system.student_seq().subrange(0, i as int));
        }
        let mut grades: Vec<Grade> = Vec::new();
        let mut j: usize = 0;
        while j < all_grades.len()
            invariant
                j <= all_grades@.len(),
                all_grades@.len() == system.grade_seq().len(),
                forall|k: int|
                    0 <= k < all_grades@.len() ==> *(#[trigger] all_grades@[k])
                        == system.grade_seq()[k],
                grades@ == system.grade_seq().subrange(0, j as int),
            decreases all_grades@.len() - j,
        {
            grades.push(all_grades[j].clone());
            j += 1;
            assert(grades@ =~= system.grade_seq().subrange(0, j as int));
        }
        assert(students@ =~= system.student_seq());
        assert(grades@ =~= system.grade_seq());
        SystemData { students, grades }
    }

    /// Builds a store by registering the students and then adding the grades, in order, through
    /// the store's own checks. The first refusal is returned as the error.
    pub fn into_system(self) -> (r: Result<GradeManagementSystem, GradeError>)
        ensures
            match r {
                Ok(system) => system.wf() && replay(self.students@, self.grades@) == Ok::<
                    (Seq<Student>, Seq<Grade>),
                    GradeError,
                >((system.student_seq(), system.grade_seq())),
                Err(e) => replay(self.students@, self.grades@) == Err::<
                    (Seq<Student>, Seq<Grade>),
                    GradeError,
                >(e),
            },
    {
        let SystemData { students, grades } = self;
        let ghost all = students@;
        let mut system = GradeManagementSystem::new();
        let mut i: usize = 0;
        while i < students.len()
            invariant
                i <= all.len(),
                all == students@,
                all == self.students@,
                grades@ == self.grades@,
                system.wf(),
                system.grade_seq() == Seq::<Grade>::empty(),
                replay_students(all.subrange(0, i as int)) == Ok::<Seq<Student>, GradeError>(
                    system.student_seq(),
                ),
            decreases all.len() - i,
        {
            assert(all.subrange(0, i + 1).drop_last() =~= all.subrange(0, i as int));
            match system.add_student(students[i].clone()) {
                Ok(()) => {},
                Err(e) => {
                    proof {
                        lemma_replay_students_error(all, i as int + 1);
                    }
                    return Err(e);
                },
            }
            i += 1;
        }
        assert(all.subrange(0, i as int) =~= all);
        match system.add_grades(grades) {
            Ok(()) => Ok(system),
            Err(e) => Err(e),
        }
    }
}

/// Once registering a prefix of the students fails, registering them all fails the same way.
proof fn lemma_replay_students_error(students: Seq<Student>, n: int)
    requires
        0 <= n <= students.len(),
        replay_students(students.subrange(0, n)) is Err,
    ensures
        replay_students(students) == replay_students(students.subrange(0, n)),
    decreases students.len() - n,
{
    if n < students.len() {
        assert(students.subrange(0, n + 1).drop_last() =~= students.subrange(0, n));
        lemma_replay_students_error(students, n + 1);
    } else {
        assert(students.subrange(0, n) =~= students);
    }
}

/// Registering students with distinct ids, in order, registers exactly them.
proof fn lemma_replay_distinct_students(students: Seq<Student>)
    requires
        ids_unique(students),
    ensures
        replay_students(students) == Ok::<Seq<Student>, GradeError>(students),
    decreases students.len(),
{
    if students.len() > 0 {
        let before = students.drop_last();
        assert(ids_unique(before)) by {
            assert forall|i: int, j: int|
                0 <= i < before.len() && 0 <= j < before.len() && i != j implies (#[trigger] before[i]).id@
                != (#[trigger] before[j]).id@ by {
                assert(before[i] == students[i] && before[j] == students[j]);
            }
        }
        lemma_replay_distinct_students(before);
        if has_student(before, students.last().id@) {
            let k = choose|k: int|
                0 <= k < before.len() && (#[trigger] before[k]).id@ == students.last().id@;
            assert(before[k] == students[k]);
            assert(false);
        }
        assert(before.push(students.last()) =~= students);
    } else {
        assert(students =~= Seq::<Student>::empty());
    }
}

/// Adding grades with distinct keys, each of a student of `students`, in order, to no grades
/// adds exactly them.
proof fn lemma_replay_distinct_grades(students: Seq<Student>, grades: Seq<Grade>)
    requires
        keys_unique(grades),
        grades_referenced(students, grades),
    ensures
        replay_grades(students, Seq::<Grade>::empty(), grades) == Ok::<Seq<Grade>, GradeError>(
            grades,
        ),
    decreases grades.len(),
{
    if grades.len() > 0 {
        let before = grades.drop_last();
        assert(keys_unique(before)) by {
            assert forall|i: int, j: int|
                0 <= i < before.len() && 0 <= j < before.len() && i != j implies !same_key(
                #[trigger] before[i],
                #[trigger] before[j],
            ) by {
                assert(before[i] == grades[i] && before[j] == grades[j]);
            }
        }
        assert(grades_referenced(students, before)) by {
            assert forall|i: int| 0 <= i < before.len() implies has_student(
                students,
                (#[trigger] before[i]).student_id@,
            ) by {
                assert(before[i] == grades[i]);
            }
        }
        lemma_replay_distinct_grades(students, before);
        assert(has_student(students, grades[grades.len() - 1].student_id@));
        if has_key(before, grades.last()) {
            let k = choose|k: int|
                0 <= k < before.len() && same_key(
                    #[trigger] before[k],
                    grades.last(),
                );
            assert(before[k] == grades[k]);
            assert(false);
        }
        assert(before.push(grades.last()) =~= grades);
    } else {
        assert(grades =~= Seq::<Grade>::empty());
    }
}

/// Saving a well-formed store's records and rebuilding a store from them gives back the same
/// students and the same grades, in the same order.
pub proof fn lemma_snapshot_round_trip(students: Seq<Student>, grades: Seq<Grade>)
    requires
        store_wf(students, grades),
    ensures
        replay(students, grades) == Ok::<(Seq<Student>, Seq<Grade>), GradeError>(
            (students, grades),
        ),
{
    lemma_replay_distinct_students(students);
    lemma_replay_distinct_grades(students, grades);
}

/// A cell list as the texts of its cells.
pub open spec fn cells(row: Vec<String>) -> Seq<Seq<char>> {
    row@.map_values(|c: String| c@)
}

/// The header of a transcript: student id, student name, semester, subject, score, level.
pub open spec fn transcript_header() -> Seq<Seq<char>> {
    seq!["学号"@, "姓名"@, "学期"@, "科目"@, "成绩"@, "等级"@]
}

/// The transcript line of the grade `g` of the student `s`.
pub open spec fn transcript_line(s: Student, g: Grade) -> Seq<Seq<char>> {
    seq![
        s.id@,
        s.name@,
        g.semester@,
        g.subject@,
        score_text(g.score as int),
        level_of(g.score as int).letter(),
    ]
}

/// The grades a transcript of the student `id` lists: those of one semester, or all of them.
pub open spec fn transcript_grades(
    grades: Seq<Grade>,
    id: Seq<char>,
    semester: Option<Seq<char>>,
) -> Seq<Grade> {
    match semester {
        Some(sem) => select(grades, of_student_in(id, sem)),
        None => select(grades, of_student(id)),
    }
}

fn text(s: &str) -> (r: String)
    ensures
        r@ == s@,
{
    s.to_owned()
}

/// The rows of the transcript of the student `student_id`, restricted to `semester` when one is
/// given: the header, then one row per grade in the order the grades were added.
pub fn transcript_rows(
    system: &GradeManagementSystem,
    student_id: &str,
    semester: Option<&str>,
) -> (r: Result<Vec<Vec<String>>, GradeError>)
    ensures
        !has_student(system.student_seq(), student_id@) ==> r == Err::<Vec<Vec<String>>, GradeError>(
            GradeError::StudentNotFound,
        ),
        has_student(system.student_seq(), student_id@) ==> r is Ok,
        match r {
            Ok(rows) => {
                let chosen = transcript_grades(
                    system.grade_seq(),
                    student_id@,
                    match semester {
                        Some(sem) => Some(sem@),
                        None => None,
                    },
                );
                &&& rows@.len() == chosen.len() + 1
                &&& cells(rows@[0]) == transcript_header()
                &&& exists|k: int|
                    0 <= k < system.student_seq().len() && (#[trigger] system.student_seq()[k]).id@
                        == student_id@ && forall|i: int|
                        0 <= i < chosen.len() ==> cells(#[trigger] rows@[i + 1]) == transcript_line(
                            system.student_seq()[k],
                            chosen[i],
                        )
            },
            Err(_) => true,
        },
{
    let student = match system.get_student(student_id) {
        Some(s) => s,
        None => {
            return Err(GradeError::StudentNotFound);
        },
    };
    let chosen = match semester {
        Some(sem) => system.get_student_semester_grades(student_id, sem),
        None => system.get_student_grades(student_id),
    };
    let ghost sel = transcript_grades(
        system.grade_seq(),
        student_id@,
        match semester {
            Some(sem) => Some(sem@),
            None => None,
        },
    );
    let mut rows: Vec<Vec<String>> = Vec::new();
    proof {
        reveal_strlit("学号");
        reveal_strlit("姓名");
        reveal_strlit("学期");
        reveal_strlit("科目");
        reveal_strlit("成绩");
        reveal_strlit("等级");
    }
    let header = vec![
        text("学号"),
        text("姓名"),
        text("学期"),
        text("科目"),
        text("成绩"),
        text("等级"),
    ];
    assert(cells(header) =~= transcript_header());
    rows.push(header);
    let mut i: usize = 0;
    while i < chosen.len()
        invariant
            i <= chosen@.len(),
            refers_to(chosen@, sel),
            rows@.len() == i + 1,
            cells(rows@[0]) == transcript_header(),
            forall|j: int| 0 <= j < i ==> cells(#[trigger] rows@[j + 1]) == transcript_line(*student, sel[j]),
        decreases chosen@.len() - i,
    {
        let g = chosen[i];
        let line = vec![
            student.id.clone(),
            student.name.clone(),
            g.semester.clone(),
            g.subject.clone(),
            format_score(g.score),
            text(g.get_grade_level()),
        ];
        assert(cells(line) =~= transcript_line(*student, sel[i as int]));
        rows.push(line);
        i += 1;
    }
    Ok(rows)
}

/// The grade that an imported row describes: the student id in the first cell, the semester in
/// the third, the subject in the fourth and the score in the fifth; the second and the sixth are
/// not read. `None` when the row has fewer than six cells or the score cannot be read.
pub open spec fn row_grade(row: Seq<String>) -> Option<Grade> {
    if row.len() < 6 {
        None
    } else {
        match score_of_text(row[4]@) {
            Some(v) => Some(Grade { student_id: row[0], subject: row[3], score: v as i32, semester: row[2] }),
            None => None,
        }
    }
}

/// The grades that imported rows describe, in order; `None` when one of the rows is malformed.
pub open spec fn rows_grades(rows: Seq<Vec<String>>) -> Option<Seq<Grade>>
    decreases rows.len(),
{
    if rows.len() == 0 {
        Some(Seq::<Grade>::empty())
    } else {
        match (rows_grades(rows.drop_last()), row_grade(rows.last()@)) {
            (Some(gs), Some(g)) => Some(gs.push(g)),
            _ => None,
        }
    }
}

/// Importing a transcript line reads back the grade it was written from: the same (student id,
/// subject, semester) key and the same score.
pub proof fn lemma_transcript_line_reimports(st: Student, g: Grade, row: Vec<String>)
    requires
        st.id@ == g.student_id@,
        cells(row) == transcript_line(st, g),
    ensures
        match row_grade(row@) {
            Some(h) => same_key(h, g) && h.score == g.score,
            None => false,
        },
{
    lemma_score_text_round_trip(g.score);
    let c = cells(row);
    assert(transcript_line(st, g).len() == 6);
    assert(c.len() == row@.len());
    assert(row@.len() == 6);
    assert(c[0] == row@[0]@ && c[2] == row@[2]@ && c[3] == row@[3]@ && c[4] == row@[4]@);
}

/// Reads the grade that an imported row describes, as `row_grade` says.
pub fn parse_grade_row(row: &Vec<String>) -> (r: Result<Grade, GradeError>)
    ensures
        match row_grade(row@) {
            Some(g) => r == Ok::<Grade, GradeError>(g),
            None => r == Err::<Grade, GradeError>(GradeError::MalformedRecord),
        },
{
    if row.len() < 6 {
        return Err(GradeError::MalformedRecord);
    }
    match parse_score(row[4].as_str()) {
        Some(score) => Ok(
            Grade::new(row[0].clone(), row[3].clone(), score, row[2].clone()),
        ),
        None => Err(GradeError::MalformedRecord),
    }
}

/// Imports the grades that `rows` describe, all or nothing. Every row is read first; a
/// malformed row fails the import with `MalformedRecord`. The grades are then added in order
/// as `add_grade` would; the first refusal fails the import with its error. On failure the
/// store is left as it was.
pub fn import_grade_rows(system: &mut GradeManagementSystem, rows: &Vec<Vec<String>>) -> (r:
    Result<(), GradeError>)
    requires
        old(system).wf(),
    ensures
        final(system).wf(),
        final(system).student_seq() == old(system).student_seq(),
        match rows_grades(rows@) {
            None => r == Err::<(), GradeError>(GradeError::MalformedRecord)
                && final(system).grade_seq() == old(system).grade_seq(),
            Some(gs) => match replay_grades(old(system).student_seq(), old(system).grade_seq(), gs) {
                Ok(after) => r is Ok && final(system).grade_seq() == after,
                Err(e) => r == Err::<(), GradeError>(e)
                    && final(system).grade_seq() == old(system).grade_seq(),
            },
        },
{
    let mut grades: Vec<Grade> = Vec::new();
    let mut i: usize = 0;
    while i < rows.len()
        invariant
            i <= rows@.len(),
            *system == *old(system),
            system.wf(),
            rows_grades(rows@.subrange(0, i as int)) == Some(grades@),
        decreases rows@.len() - i,
    {
        assert(rows@.subrange(0, i + 1).drop_last() =~= rows@.subrange(0, i as int));
        match parse_grade_row(&rows[i]) {
            Ok(g) => grades.push(g),
            Err(e) => {
                proof {
                    lemma_rows_grades_none(rows@, i as int + 1);
                }
                return Err(e);
            },
        }
        i += 1;
    }
    assert(rows@.subrange(0, i as int) =~= rows@);
    system.add_grades(grades)
}

/// Once a prefix of the rows holds a malformed row, so do all of them.
proof fn lemma_rows_grades_none(rows: Seq<Vec<String>>, n: int)
    requires
        0 <= n <= rows.len(),
        rows_grades(rows.subrange(0, n)) is None,
    ensures
        rows_grades(rows) is None,
    decreases rows.len() - n,
{
    if n < rows.len() {
        assert(rows.subrange(0, n + 1).drop_last() =~= rows.subrange(0, n));
        lemma_rows_grades_none(rows, n + 1);
    } else {
        assert(rows.subrange(0, n) =~= rows);
    }
}

/// Where a store's snapshot file lives.
pub struct FileIO {
    file_path: String,
}

impl View for FileIO {
    type V = Seq<char>;

    closed spec fn view(&self) -> Seq<char> {
        self.file_path@
    }
}

impl FileIO {
    pub fn new(file_path: String) -> (r: FileIO)
        ensures
            r@ == file_path@,
    {
        FileIO { file_path }
    }

    /// The path of the snapshot file.
    pub fn file_path(&self) -> (r: &str)
        ensures
            r@ == self@,
    {
        self.file_path.as_str()
    }
}

} // verus!
