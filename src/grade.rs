use vstd::prelude::*;
use crate::score_text::{format_score_tenths, score_tenths_text};

verus! {

/// The five letter levels a score falls into.
#[derive(Debug, Clone, Copy, PartialEq, Eq, Structural)]
pub enum GradeLevel {
    A,
    B,
    C,
    D,
    F,
}

/// The level of a score given in hundredths of a point: at least 90 points is `A`, at least 80
/// is `B`, at least 70 is `C`, at least 60 is `D`, anything lower is `F`. Scores outside 0..=100
/// are classified the same way.
pub open spec fn level_of(score: int) -> GradeLevel {
    if score >= 9000 {
        GradeLevel::A
    } else if score >= 8000 {
        GradeLevel::B
    } else if score >= 7000 {
        GradeLevel::C
    } else if score >= 6000 {
        GradeLevel::D
    } else {
        GradeLevel::F
    }
}

impl GradeLevel {
    /// The letter that names the level.
    pub open spec fn letter(self) -> Seq<char> {
        match self {
            GradeLevel::A => "A"@,
            GradeLevel::B => "B"@,
            GradeLevel::C => "C"@,
            GradeLevel::D => "D"@,
            GradeLevel::F => "F"@,
        }
    }

    pub fn as_str(&self) -> (r: &'static str)
        ensures
            r@ == self.letter(),
    {
        match self {
            GradeLevel::A => "A",
            GradeLevel::B => "B",
            GradeLevel::C => "C",
            GradeLevel::D => "D",
            GradeLevel::F => "F",
        }
    }
}

/// One student's result in one subject in one semester. The score is kept in hundredths of a
/// point (`9550` is 95.5 points). Two grades are the same fact exactly when their
/// (student id, subject, semester) keys agree; the score is not part of the key.
#[derive(Debug)]
pub struct Grade {
    pub student_id: String,
    pub subject: String,
    pub score: i32,
    pub semester: String,
}

/// Whether two grades have the same (student id, subject, semester) key.
pub open spec fn same_key(a: Grade, b: Grade) -> bool {
    &&& a.student_id@ == b.student_id@
    &&& a.subject@ == b.subject@
    &&& a.semester@ == b.semester@
}

impl Grade {
    pub fn new(student_id: String, subject: String, score: i32, semester: String) -> (r: Grade)
        ensures
            r.student_id == student_id,
            r.subject == subject,
            r.score == score,
            r.semester == semester,
    {
        Grade { student_id, subject, score, semester }
    }

    pub fn update_score(&mut self, new_score: i32)
        ensures
            final(self).score == new_score,
            final(self).student_id == old(self).student_id,
            final(self).subject == old(self).subject,
            final(self).semester == old(self).semester,
    {
        self.score = new_score;
    }

    pub fn level(&self) -> (r: GradeLevel)
        ensures
            r == level_of(self.score as int),
    {
        if self.score >= 9000 {
            GradeLevel::A
        } else if self.score >= 8000 {
            GradeLevel::B
        } else if self.score >= 7000 {
            GradeLevel::C
        } else if self.score >= 6000 {
            GradeLevel::D
        } else {
            GradeLevel::F
        }
    }

    /// The letter of the grade's level: "A", "B", "C", "D" or "F".
    pub fn get_grade_level(&self) -> (r: &'static str)
        ensures
            r@ == level_of(self.score as int).letter(),
    {
        self.level().as_str()
    }

    /// A grade passes when its score is at least 60 points.
    pub fn is_passing(&self) -> (r: bool)
        ensures
            r == (self.score >= 6000),
    {
        self.score >= 6000
    }
}

/// The human-readable text of a grade:
/// `学号: <student id>, 科目: <subject>, 成绩: <score with one decimal>, 学期: <semester>, 等级: <level>`.
pub open spec fn grade_text(g: Grade) -> Seq<char> {
    "学号: "@ + g.student_id@ + ", 科目: "@ + g.subject@ + ", 成绩: "@ + score_tenths_text(
        g.score as int,
    ) + ", 学期: "@ + g.semester@ + ", 等级: "@ + level_of(g.score as int).letter()
}

impl Grade {
    /// The human-readable text of the grade, as `grade_text` gives it.
    pub fn describe(&self) -> (r: String)
        ensures
            r@ == grade_text(*self),
    {
        let mut out = String::new();
        out.append("学号: ");
        out.append(self.student_id.as_str());
        out.append(", 科目: ");
        out.append(self.subject.as_str());
        out.append(", 成绩: ");
        let score = format_score_tenths(self.score);
        out.append(score.as_str());
        out.append(", 学期: ");
        out.append(self.semester.as_str());
        out.append(", 等级: ");
        out.append(self.get_grade_level());
        assert(out@ =~= grade_text(*self));
        out
    }
}

impl Clone for Grade {
    fn clone(&self) -> (r: Grade)
        ensures
            r == *self,
    {
        Grade {
            student_id: self.student_id.clone(),
            subject: self.subject.clone(),
            score: self.score,
            semester: self.semester.clone(),
        }
    }
}

impl PartialEq for Grade {
    fn eq(&self, other: &Grade) -> (r: bool) {
        self.student_id == other.student_id && self.subject == other.subject && self.semester
            == other.semester
    }
}

impl vstd::std_specs::cmp::PartialEqSpecImpl for Grade {
    open spec fn obeys_eq_spec() -> bool {
        true
    }

    open spec fn eq_spec(&self, other: &Grade) -> bool {
        same_key(*self, *other)
    }
}

impl Eq for Grade {}

} // verus!
