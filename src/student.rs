use vstd::prelude::*;

verus! {

/// A registered student. Two students are the same entity exactly when their ids agree.
#[derive(Debug)]
pub struct Student {
    pub id: String,
    pub name: String,
    pub class: String,
    pub major: String,
}

impl Student {
    pub fn new(id: String, name: String, class: String, major: String) -> (r: Student)
        ensures
            r.id == id,
            r.name == name,
            r.class == class,
            r.major == major,
    {
        Student { id, name, class, major }
    }

    /// Replaces each descriptive field for which a new value is given; the id never changes.
    pub fn update(&mut self, name: Option<String>, class: Option<String>, major: Option<String>)
        ensures
            final(self).id == old(self).id,
            final(self).name == (match name {
                Some(n) => n,
                None => old(self).name,
            }),
            final(self).class == (match class {
                Some(c) => c,
                None => old(self).class,
            }),
            final(self).major == (match major {
                Some(m) => m,
                None => old(self).major,
            }),
    {
        if let Some(name) = name {
            self.name = name;
        }
        if let Some(class) = class {
            self.class = class;
        }
        if let Some(major) = major {
            self.major = major;
        }
    }
}

/// The human-readable text of a student: `学号: <id>, 姓名: <name>, 班级: <class>, 专业: <major>`.
pub open spec fn student_text(s: Student) -> Seq<char> {
    "学号: "@ + s.id@ + ", 姓名: "@ + s.name@ + ", 班级: "@ + s.class@ + ", 专业: "@ + s.major@
}

impl Student {
    /// The human-readable text of the student, as `student_text` gives it.
    pub fn describe(&self) -> (r: String)
        ensures
            r@ == student_text(*self),
    {
        let mut out = String::new();
        out.append("学号: ");
        out.append(self.id.as_str());
        out.append(", 姓名: ");
        out.append(self.name.as_str());
        out.append(", 班级: ");
        out.append(self.class.as_str());
        out.append(", 专业: ");
        out.append(self.major.as_str());
        assert(out@ =~= student_text(*self));
        out
    }
}

impl Clone for Student {
    fn clone(&self) -> (r: Student)
        ensures
            r == *self,
    {
        Student {
            id: self.id.clone(),
            name: self.name.clone(),
            class: self.class.clone(),
            major: self.major.clone(),
        }
    }
}

impl PartialEq for Student {
    fn eq(&self, other: &Student) -> (r: bool) {
        self.id == other.id
    }
}

impl vstd::std_specs::cmp::PartialEqSpecImpl for Student {
    open spec fn obeys_eq_spec() -> bool {
        true
    }

    open spec fn eq_spec(&self, other: &Student) -> bool {
        self.id@ == other.id@
    }
}

impl Eq for Student {}

} // verus!
