use grade_management::error::GradeError;
use grade_management::grade::{Grade, GradeLevel};
use grade_management::records::{
    import_grade_rows, parse_grade_row, transcript_rows, FileIO, SystemData,
};
use grade_management::score_text::{format_score, format_score_tenths, parse_score};
use grade_management::student::Student;
use grade_management::system::{Average, GradeManagementSystem};

fn s(text: &str) -> String {
    text.to_string()
}

fn student(id: &str, name: &str) -> Student {
    Student::new(s(id), s(name), s("C1"), s("CS"))
}

fn grade(id: &str, subject: &str, score: i32, semester: &str) -> Grade {
    Grade::new(s(id), s(subject), score, s(semester))
}

fn row(cells: &[&str]) -> Vec<String> {
    cells.iter().map(|c| c.to_string()).collect()
}

#[test]
fn duplicate_student_is_refused_and_count_kept() {
    let mut system = GradeManagementSystem::new();
    system.add_student(student("001", "Alice")).unwrap();
    let again = system.add_student(student("001", "Someone Else"));
    assert_eq!(again, Err(GradeError::DuplicateStudent));
    assert_eq!(system.get_all_students().len(), 1);
    assert_eq!(system.get_student("001").unwrap().name, "Alice");
}

#[test]
fn grade_for_unknown_student_is_refused() {
    let mut system = GradeManagementSystem::new();
    let r = system.add_grade(grade("404", "Math", 9000, "2024-1"));
    assert_eq!(r, Err(GradeError::StudentNotFound));
    assert!(system.get_all_grades().is_empty());
}

#[test]
fn second_grade_with_same_key_is_refused() {
    let mut system = GradeManagementSystem::new();
    system.add_student(student("001", "Alice")).unwrap();
    system.add_grade(grade("001", "Math", 9500, "2024-1")).unwrap();
    let r = system.add_grade(grade("001", "Math", 4000, "2024-1"));
    assert_eq!(r, Err(GradeError::DuplicateGrade));
    let grades = system.get_student_grades("001");
    assert_eq!(grades.len(), 1);
    assert_eq!(grades[0].score, 9500);
}

#[test]
fn removing_a_student_removes_its_grades() {
    let mut system = GradeManagementSystem::new();
    system.add_student(student("001", "Alice")).unwrap();
    system.add_student(student("002", "Bob")).unwrap();
    system.add_grade(grade("001", "Math", 9500, "2024-1")).unwrap();
    system.add_grade(grade("001", "Art", 7000, "2024-2")).unwrap();
    system.add_grade(grade("002", "Math", 8000, "2024-1")).unwrap();
    system.remove_student("001").unwrap();
    assert!(system.get_student_grades("001").is_empty());
    assert!(system.get_student("001").is_none());
    assert_eq!(system.get_all_grades().len(), 1);
    assert_eq!(system.get_student_grades("002").len(), 1);
    assert_eq!(system.remove_student("001"), Err(GradeError::StudentNotFound));
}

#[test]
fn semester_average_is_exact_or_absent() {
    let mut system = GradeManagementSystem::new();
    system.add_student(student("001", "Alice")).unwrap();
    assert_eq!(system.calculate_semester_average("001", "2024-1"), None);
    system.add_grade(grade("001", "Math", 9500, "2024-1")).unwrap();
    system.add_grade(grade("001", "Art", 8000, "2024-1")).unwrap();
    system.add_grade(grade("001", "Music", 8100, "2024-1")).unwrap();
    system.add_grade(grade("001", "Math", 1000, "2024-2")).unwrap();
    let avg = system.calculate_semester_average("001", "2024-1").unwrap();
    assert_eq!(avg, Average { total: 25600, count: 3 });
    assert_eq!(system.calculate_semester_average("001", "2025-1"), None);
}

#[test]
fn statistics_cover_every_level() {
    let mut system = GradeManagementSystem::new();
    for (id, score) in [("1", 9000), ("2", 8999), ("3", 7500), ("4", 5999), ("5", 10500)] {
        system.add_student(student(id, id)).unwrap();
        system.add_grade(grade(id, "Math", score, "2024-1")).unwrap();
    }
    system.add_grade(grade("1", "Math", 100, "2024-2")).unwrap();
    let stats = system.get_subject_statistics("Math", "2024-1");
    assert_eq!(stats.count(GradeLevel::A), 2);
    assert_eq!(stats.count(GradeLevel::B), 1);
    assert_eq!(stats.count(GradeLevel::C), 1);
    assert_eq!(stats.count(GradeLevel::D), 0);
    assert_eq!(stats.count(GradeLevel::F), 1);
    assert_eq!(stats.a + stats.b + stats.c + stats.d + stats.f, 5);
    let empty = system.get_subject_statistics("Art", "2024-1");
    assert_eq!(empty.a + empty.b + empty.c + empty.d + empty.f, 0);
}

#[test]
fn grade_levels_and_passing() {
    assert_eq!(grade("1", "M", 9000, "S").get_grade_level(), "A");
    assert_eq!(grade("1", "M", 8000, "S").get_grade_level(), "B");
    assert_eq!(grade("1", "M", 7999, "S").get_grade_level(), "C");
    assert_eq!(grade("1", "M", 6000, "S").get_grade_level(), "D");
    assert_eq!(grade("1", "M", 5999, "S").get_grade_level(), "F");
    assert_eq!(grade("1", "M", -500, "S").get_grade_level(), "F");
    assert_eq!(grade("1", "M", 12000, "S").level(), GradeLevel::A);
    assert!(grade("1", "M", 6000, "S").is_passing());
    assert!(!grade("1", "M", 5999, "S").is_passing());
}

#[test]
fn grade_equality_ignores_score() {
    assert_eq!(grade("1", "M", 10, "S"), grade("1", "M", 9000, "S"));
    assert_ne!(grade("1", "M", 10, "S"), grade("1", "M", 10, "T"));
    assert_eq!(student("1", "A"), student("1", "B"));
    assert_ne!(student("1", "A"), student("2", "A"));
}

#[test]
fn student_update_changes_given_fields() {
    let mut st = student("001", "Alice");
    st.update(Some(s("Alicia")), None, Some(s("Math")));
    assert_eq!(st.id, "001");
    assert_eq!(st.name, "Alicia");
    assert_eq!(st.class, "C1");
    assert_eq!(st.major, "Math");
}

#[test]
fn update_grade_replaces_only_the_score() {
    let mut system = GradeManagementSystem::new();
    system.add_student(student("001", "Alice")).unwrap();
    system.add_grade(grade("001", "Math", 5000, "2024-1")).unwrap();
    system.update_grade("001", "Math", "2024-1", 8800).unwrap();
    assert_eq!(system.get_student_grades("001")[0].score, 8800);
    assert_eq!(
        system.update_grade("001", "Math", "2024-2", 1),
        Err(GradeError::GradeNotFound)
    );
}

#[test]
fn subject_grades_join_students() {
    let mut system = GradeManagementSystem::new();
    system.add_student(student("001", "Alice")).unwrap();
    system.add_student(student("002", "Bob")).unwrap();
    system.add_grade(grade("002", "Math", 7000, "2024-1")).unwrap();
    system.add_grade(grade("001", "Math", 9000, "2024-1")).unwrap();
    system.add_grade(grade("001", "Art", 9000, "2024-1")).unwrap();
    let joined = system.get_subject_grades("Math", "2024-1");
    assert_eq!(joined.len(), 2);
    assert_eq!(joined[0].0.name, "Bob");
    assert_eq!(joined[1].0.name, "Alice");
    assert_eq!(joined[1].1.score, 9000);
    assert_eq!(system.get_student_semester_grades("001", "2024-1").len(), 2);
}

#[test]
fn scenario_single_grade_transcript() {
    let mut system = GradeManagementSystem::new();
    system.add_student(Student::new(s("001"), s("Alice"), s("C1"), s("CS"))).unwrap();
    system.add_grade(Grade::new(s("001"), s("Math"), 9500, s("2024-1"))).unwrap();
    assert_eq!(system.get_student_grades("001")[0].get_grade_level(), "A");
    let avg = system.calculate_semester_average("001", "2024-1").unwrap();
    assert_eq!(avg, Average { total: 9500, count: 1 });
    let rows = transcript_rows(&system, "001", None).unwrap();
    assert_eq!(rows.len(), 2);
    assert_eq!(rows[0], row(&["学号", "姓名", "学期", "科目", "成绩", "等级"]));
    assert_eq!(rows[1], row(&["001", "Alice", "2024-1", "Math", "95", "A"]));
    let by_semester = transcript_rows(&system, "001", Some("2024-2")).unwrap();
    assert_eq!(by_semester.len(), 1);
}

#[test]
fn transcript_of_unknown_student_fails() {
    let system = GradeManagementSystem::new();
    assert_eq!(transcript_rows(&system, "001", None), Err(GradeError::StudentNotFound));
}

#[test]
fn score_texts() {
    assert_eq!(format_score(9500), "95");
    assert_eq!(format_score(8750), "87.5");
    assert_eq!(format_score(8725), "87.25");
    assert_eq!(format_score(5), "0.05");
    assert_eq!(format_score(0), "0");
    assert_eq!(format_score(-125), "-1.25");
    assert_eq!(format_score(i32::MIN), "-21474836.48");
    assert_eq!(parse_score("95"), Some(9500));
    assert_eq!(parse_score("87.5"), Some(8750));
    assert_eq!(parse_score("87.25"), Some(8725));
    assert_eq!(parse_score("-1.25"), Some(-125));
    assert_eq!(parse_score("007"), Some(700));
    assert_eq!(parse_score("21474836.47"), Some(i32::MAX));
    assert_eq!(parse_score("21474836.48"), None);
    assert_eq!(parse_score("999999999999"), None);
    assert_eq!(parse_score(""), None);
    assert_eq!(parse_score("-"), None);
    assert_eq!(parse_score("9x"), None);
    assert_eq!(parse_score("9."), Some(900));
    assert_eq!(parse_score(".5"), Some(50));
    assert_eq!(parse_score("-.05"), Some(-5));
    assert_eq!(parse_score("+95"), Some(9500));
    assert_eq!(parse_score("95.500"), Some(9550));
    assert_eq!(parse_score("1.230"), Some(123));
    assert_eq!(parse_score("1.234"), Some(123));
    assert_eq!(parse_score("95.125"), Some(9513));
    assert_eq!(parse_score("95.1249"), Some(9512));
    assert_eq!(parse_score("-0.005"), Some(-1));
    assert_eq!(parse_score("-0.004"), Some(0));
    assert_eq!(parse_score("99.999"), Some(10000));
    assert_eq!(parse_score("0.00000000000000000000009"), Some(0));
    assert_eq!(parse_score("."), None);
    assert_eq!(parse_score("+"), None);
    assert_eq!(parse_score("+-1"), None);
    assert_eq!(parse_score("1.2.3"), None);
    assert_eq!(parse_score("1e2"), Some(10000));
    assert_eq!(parse_score("9.5E+1"), Some(9500));
    assert_eq!(parse_score("1e-2"), Some(1));
    assert_eq!(parse_score("-2.5e-3"), Some(0));
    assert_eq!(parse_score("-5e-3"), Some(-1));
    assert_eq!(parse_score("12345e-2"), Some(12345));
    assert_eq!(parse_score("1e7"), Some(1_000_000_000));
    assert_eq!(parse_score("1e8"), None);
    assert_eq!(parse_score("1e999999999999999999999999"), None);
    assert_eq!(parse_score("0e999999999999999999999999"), Some(0));
    assert_eq!(parse_score("5e-999999999999999999999999"), Some(0));
    assert_eq!(parse_score("1e"), None);
    assert_eq!(parse_score("1e+"), None);
    assert_eq!(parse_score("e5"), None);
    assert_eq!(parse_score("1e2.5"), None);
}

#[test]
fn import_adds_rows_or_nothing() {
    let mut system = GradeManagementSystem::new();
    system.add_student(student("001", "Alice")).unwrap();
    let good = vec![
        row(&["001", "Alice", "2024-1", "Math", "95", "A"]),
        row(&["001", "Alice", "2024-1", "Art", "61.5", "D"]),
    ];
    import_grade_rows(&mut system, &good).unwrap();
    let grades = system.get_student_grades("001");
    assert_eq!(grades.len(), 2);
    assert_eq!(grades[1].subject, "Art");
    assert_eq!(grades[1].score, 6150);

    let duplicate = vec![
        row(&["001", "", "2024-2", "Math", "70", ""]),
        row(&["001", "", "2024-1", "Math", "70", ""]),
    ];
    assert_eq!(import_grade_rows(&mut system, &duplicate), Err(GradeError::DuplicateGrade));
    assert_eq!(system.get_all_grades().len(), 2);

    let unknown = vec![row(&["404", "", "2024-2", "Math", "70", ""])];
    assert_eq!(import_grade_rows(&mut system, &unknown), Err(GradeError::StudentNotFound));

    let short = vec![row(&["001", "", "2024-3", "Math", "70"])];
    assert_eq!(import_grade_rows(&mut system, &short), Err(GradeError::MalformedRecord));
    let bad_score = vec![
        row(&["001", "", "2024-3", "Math", "70", ""]),
        row(&["001", "", "2024-3", "Art", "seventy", ""]),
    ];
    assert_eq!(import_grade_rows(&mut system, &bad_score), Err(GradeError::MalformedRecord));
    assert_eq!(system.get_all_grades().len(), 2);
}

#[test]
fn a_row_reads_its_designated_cells() {
    let g = parse_grade_row(&row(&["7", "ignored", "2023-2", "Physics", "88.8", "ignored"])).unwrap();
    assert_eq!(g.student_id, "7");
    assert_eq!(g.semester, "2023-2");
    assert_eq!(g.subject, "Physics");
    assert_eq!(g.score, 8880);
}

#[test]
fn snapshot_records_rebuild_the_same_store() {
    let mut system = GradeManagementSystem::new();
    system.add_student(student("001", "Alice")).unwrap();
    system.add_student(student("002", "Bob")).unwrap();
    system.add_grade(grade("002", "Math", 7000, "2024-1")).unwrap();
    system.add_grade(grade("001", "Math", 9000, "2024-1")).unwrap();
    let data = SystemData::from_system(&system);
    let rebuilt = data.into_system().unwrap();
    let before: Vec<(String, String)> =
        system.get_all_students().iter().map(|s| (s.id.clone(), s.name.clone())).collect();
    let after: Vec<(String, String)> =
        rebuilt.get_all_students().iter().map(|s| (s.id.clone(), s.name.clone())).collect();
    assert_eq!(before, after);
    let before: Vec<(String, i32)> =
        system.get_all_grades().iter().map(|g| (g.student_id.clone(), g.score)).collect();
    let after: Vec<(String, i32)> =
        rebuilt.get_all_grades().iter().map(|g| (g.student_id.clone(), g.score)).collect();
    assert_eq!(before, after);
}

#[test]
fn snapshot_with_dangling_grade_is_refused() {
    let data = SystemData {
        students: vec![student("001", "Alice")],
        grades: vec![grade("002", "Math", 7000, "2024-1")],
    };
    assert!(matches!(data.into_system(), Err(GradeError::StudentNotFound)));
    let twice = SystemData {
        students: vec![student("001", "Alice"), student("001", "Alice")],
        grades: vec![],
    };
    assert!(matches!(twice.into_system(), Err(GradeError::DuplicateStudent)));
}

#[test]
fn file_io_keeps_its_path() {
    let io = FileIO::new(s("grades.json"));
    assert_eq!(io.file_path(), "grades.json");
}

#[test]
fn exported_transcript_imports_back() {
    let mut system = GradeManagementSystem::new();
    system.add_student(student("001", "Alice")).unwrap();
    for (subject, score) in [("Math", 9500), ("Art", 8750), ("Music", -125), ("Law", 5)] {
        system.add_grade(grade("001", subject, score, "2024-1")).unwrap();
    }
    let rows = transcript_rows(&system, "001", None).unwrap();
    let mut fresh = GradeManagementSystem::new();
    fresh.add_student(student("001", "Alice")).unwrap();
    import_grade_rows(&mut fresh, &rows[1..].to_vec()).unwrap();
    let before: Vec<(String, String, i32)> = system
        .get_all_grades()
        .iter()
        .map(|g| (g.subject.clone(), g.semester.clone(), g.score))
        .collect();
    let after: Vec<(String, String, i32)> = fresh
        .get_all_grades()
        .iter()
        .map(|g| (g.subject.clone(), g.semester.clone(), g.score))
        .collect();
    assert_eq!(before, after);
}

#[test]
fn import_rounds_scores_to_hundredths() {
    let mut system = GradeManagementSystem::new();
    system.add_student(student("001", "Alice")).unwrap();
    let rows = vec![row(&["001", "Alice", "2024-1", "Math", "95.125", "A"])];
    import_grade_rows(&mut system, &rows).unwrap();
    assert_eq!(system.get_student_grades("001")[0].score, 9513);
}

#[test]
fn human_readable_texts() {
    let st = Student::new(s("001"), s("Alice"), s("C1"), s("CS"));
    assert_eq!(st.describe(), "学号: 001, 姓名: Alice, 班级: C1, 专业: CS");
    let g = grade("001", "Math", 9500, "2024-1");
    assert_eq!(g.describe(), "学号: 001, 科目: Math, 成绩: 95.0, 学期: 2024-1, 等级: A");
    assert_eq!(grade("1", "M", 8725, "S").describe(), "学号: 1, 科目: M, 成绩: 87.2, 学期: S, 等级: B");
}

#[test]
fn one_decimal_score_texts() {
    assert_eq!(format_score_tenths(9500), "95.0");
    assert_eq!(format_score_tenths(8725), "87.2");
    assert_eq!(format_score_tenths(8775), "87.8");
    assert_eq!(format_score_tenths(8726), "87.3");
    assert_eq!(format_score_tenths(8724), "87.2");
    assert_eq!(format_score_tenths(9995), "100.0");
    assert_eq!(format_score_tenths(5), "0.0");
    assert_eq!(format_score_tenths(-4), "-0.0");
    assert_eq!(format_score_tenths(-1250), "-12.5");
}
