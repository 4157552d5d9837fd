//! A department of the school.
use vstd::prelude::*;
use crate::text::{ascii_upper, eq_ignore_ascii_case};

verus! {

#[derive(Debug, Clone, Copy, PartialEq, Eq, Structural, Hash)]
pub enum Department {
    Ai2,
    Ai3,
    Ai4,
    Asi5,
    Cgc3,
    Cgc4,
    Cp5,
    EuromedSic,
    Ep3,
    Ep4,
    Ep5,
    Gc5,
    Gcu3,
    Gcu4,
    Gm3,
    Gm4,
    Gm5,
    Gpgr3,
    Gpgr4,
    Iti3,
    Iti4,
    Mic1,
    Mic2,
    Meca3,
    Meca4,
    Meca5,
    Mri5,
    MsEsd,
    PerfE3,
    PerfE4,
    PerfE5,
    PerfIi3,
    PerfIi4,
    PerfIi5,
    PerfIsp3,
    PerfIsp4,
    PerfIsp5,
    PerfNi3,
    PerfNi4,
    PerfNi5,
    Stpi1,
    Stpi2,
}

/// The canonical code of a department.
pub open spec fn department_code(v: Department) -> Seq<char> {
    match v {
        Department::Ai2 => "AI2"@,
        Department::Ai3 => "AI3"@,
        Department::Ai4 => "AI4"@,
        Department::Asi5 => "ASI5"@,
        Department::Cgc3 => "CGC3"@,
        Department::Cgc4 => "CGC4"@,
        Department::Cp5 => "CP5"@,
        Department::EuromedSic => "EUROMED-SIC"@,
        Department::Ep3 => "EP3"@,
        Department::Ep4 => "EP4"@,
        Department::Ep5 => "EP5"@,
        Department::Gc5 => "GC5"@,
        Department::Gcu3 => "GCU3"@,
        Department::Gcu4 => "GCU4"@,
        Department::Gm3 => "GM3"@,
        Department::Gm4 => "GM4"@,
        Department::Gm5 => "GM5"@,
        Department::Gpgr3 => "GPGR3"@,
        Department::Gpgr4 => "GPGR4"@,
        Department::Iti3 => "ITI3"@,
        Department::Iti4 => "ITI4"@,
        Department::Mic1 => "M-IC1"@,
        Department::Mic2 => "M-IC2"@,
        Department::Meca3 => "MECA3"@,
        Department::Meca4 => "MECA4"@,
        Department::Meca5 => "MECA5"@,
        Department::Mri5 => "MRI5"@,
        Department::MsEsd => "MS-ESD"@,
        Department::PerfE3 => "PERF-E3"@,
        Department::PerfE4 => "PERF-E4"@,
        Department::PerfE5 => "PERF-E5"@,
        Department::PerfIi3 => "PERF-II3"@,
        Department::PerfIi4 => "PERF-II4"@,
        Department::PerfIi5 => "PERF-II5"@,
        Department::PerfIsp3 => "PERF-ISP3"@,
        Department::PerfIsp4 => "PERF-ISP4"@,
        Department::PerfIsp5 => "PERF-ISP5"@,
        Department::PerfNi3 => "PERF-NI3"@,
        Department::PerfNi4 => "PERF-NI4"@,
        Department::PerfNi5 => "PERF-NI5"@,
        Department::Stpi1 => "STPI1"@,
        Department::Stpi2 => "STPI2"@,
    }
}

/// The department a code stands for, the code taken uppercase.
pub open spec fn department_from_code(u: Seq<char>) -> Option<Department> {
    if u == "AI2"@ {
        Some(Department::Ai2)
    } else if u == "AI3"@ {
        Some(Department::Ai3)
    } else if u == "AI4"@ {
        Some(Department::Ai4)
    } else if u == "ASI5"@ {
        Some(Department::Asi5)
    } else if u == "CGC3"@ {
        Some(Department::Cgc3)
    } else if u == "CGC4"@ {
        Some(Department::Cgc4)
    } else if u == "CP5"@ {
        Some(Department::Cp5)
    } else if u == "EUROMED-SIC"@ {
        Some(Department::EuromedSic)
    } else if u == "EP3"@ {
        Some(Department::Ep3)
    } else if u == "EP4"@ {
        Some(Department::Ep4)
    } else if u == "EP5"@ {
        Some(Department::Ep5)
    } else if u == "GC5"@ {
        Some(Department::Gc5)
    } else if u == "GCU3"@ {
        Some(Department::Gcu3)
    } else if u == "GCU4"@ {
        Some(Department::Gcu4)
    } else if u == "GM3"@ {
        Some(Department::Gm3)
    } else if u == "GM4"@ {
        Some(Department::Gm4)
    } else if u == "GM5"@ {
        Some(Department::Gm5)
    } else if u == "GPGR3"@ {
        Some(Department::Gpgr3)
    } else if u == "GPGR4"@ {
        Some(Department::Gpgr4)
    } else if u == "ITI3"@ {
        Some(Department::Iti3)
    } else if u == "ITI4"@ {
        Some(Department::Iti4)
    } else if u == "M-IC1"@ {
        Some(Department::Mic1)
    } else if u == "M-IC2"@ {
        Some(Department::Mic2)
    } else if u == "MECA3"@ {
        Some(Department::Meca3)
    } else if u == "MECA4"@ {
        Some(Department::Meca4)
    } else if u == "MECA5"@ {
        Some(Department::Meca5)
    } else if u == "MRI5"@ {
        Some(Department::Mri5)
    } else if u == "MS-ESD"@ {
        Some(Department::MsEsd)
    } else if u == "PERF-E3"@ {
        Some(Department::PerfE3)
    } else if u == "PERF-E4"@ {
        Some(Department::PerfE4)
    } else if u == "PERF-E5"@ {
        Some(Department::PerfE5)
    } else if u == "PERF-II3"@ {
        Some(Department::PerfIi3)
    } else if u == "PERF-II4"@ {
        Some(Department::PerfIi4)
    } else if u == "PERF-II5"@ {
        Some(Department::PerfIi5)
    } else if u == "PERF-ISP3"@ {
        Some(Department::PerfIsp3)
    } else if u == "PERF-ISP4"@ {
        Some(Department::PerfIsp4)
    } else if u == "PERF-ISP5"@ {
        Some(Department::PerfIsp5)
    } else if u == "PERF-NI3"@ {
        Some(Department::PerfNi3)
    } else if u == "PERF-NI4"@ {
        Some(Department::PerfNi4)
    } else if u == "PERF-NI5"@ {
        Some(Department::PerfNi5)
    } else if u == "STPI1"@ {
        Some(Department::Stpi1)
    } else if u == "STPI2"@ {
        Some(Department::Stpi2)
    } else {
        None
    }
}

impl Department {
    /// Reads a department from its code, ignoring ASCII case.
    pub fn from_str(s: &str) -> (r: Result<Department, String>)
        ensures
            match r {
                Ok(v) => department_from_code(ascii_upper(s@)) == Some(v),
                Err(_) => department_from_code(ascii_upper(s@)) is None,
            },
    {
        proof {
            reveal_strlit("AI2");
            reveal_strlit("AI3");
            reveal_strlit("AI4");
            reveal_strlit("ASI5");
            reveal_strlit("CGC3");
            reveal_strlit("CGC4");
            reveal_strlit("CP5");
            reveal_strlit("EUROMED-SIC");
            reveal_strlit("EP3");
            reveal_strlit("EP4");
            reveal_strlit("EP5");
            reveal_strlit("GC5");
            reveal_strlit("GCU3");
            reveal_strlit("GCU4");
            reveal_strlit("GM3");
            reveal_strlit("GM4");
            reveal_strlit("GM5");
            reveal_strlit("GPGR3");
            reveal_strlit("GPGR4");
            reveal_strlit("ITI3");
            reveal_strlit("ITI4");
            reveal_strlit("M-IC1");
            reveal_strlit("M-IC2");
            reveal_strlit("MECA3");
            reveal_strlit("MECA4");
            reveal_strlit("MECA5");
            reveal_strlit("MRI5");
            reveal_strlit("MS-ESD");
            reveal_strlit("PERF-E3");
            reveal_strlit("PERF-E4");
            reveal_strlit("PERF-E5");
            reveal_strlit("PERF-II3");
            reveal_strlit("PERF-II4");
            reveal_strlit("PERF-II5");
            reveal_strlit("PERF-ISP3");
            reveal_strlit("PERF-ISP4");
            reveal_strlit("PERF-ISP5");
            reveal_strlit("PERF-NI3");
            reveal_strlit("PERF-NI4");
            reveal_strlit("PERF-NI5");
            reveal_strlit("STPI1");
            reveal_strlit("STPI2");
            assert(ascii_upper("AI2"@) =~= "AI2"@);
            assert(ascii_upper("AI3"@) =~= "AI3"@);
            assert(ascii_upper("AI4"@) =~= "AI4"@);
            assert(ascii_upper("ASI5"@) =~= "ASI5"@);
            assert(ascii_upper("CGC3"@) =~= "CGC3"@);
            assert(ascii_upper("CGC4"@) =~= "CGC4"@);
            assert(ascii_upper("CP5"@) =~= "CP5"@);
            assert(ascii_upper("EUROMED-SIC"@) =~= "EUROMED-SIC"@);
            assert(ascii_upper("EP3"@) =~= "EP3"@);
            assert(ascii_upper("EP4"@) =~= "EP4"@);
            assert(ascii_upper("EP5"@) =~= "EP5"@);
            assert(ascii_upper("GC5"@) =~= "GC5"@);
            assert(ascii_upper("GCU3"@) =~= "GCU3"@);
            assert(ascii_upper("GCU4"@) =~= "GCU4"@);
            assert(ascii_upper("GM3"@) =~= "GM3"@);
            assert(ascii_upper("GM4"@) =~= "GM4"@);
            assert(ascii_upper("GM5"@) =~= "GM5"@);
            assert(ascii_upper("GPGR3"@) =~= "GPGR3"@);
            assert(ascii_upper("GPGR4"@) =~= "GPGR4"@);
            assert(ascii_upper("ITI3"@) =~= "ITI3"@);
            assert(ascii_upper("ITI4"@) =~= "ITI4"@);
            assert(ascii_upper("M-IC1"@) =~= "M-IC1"@);
            assert(ascii_upper("M-IC2"@) =~= "M-IC2"@);
            assert(ascii_upper("MECA3"@) =~= "MECA3"@);
            assert(ascii_upper("MECA4"@) =~= "MECA4"@);
            assert(ascii_upper("MECA5"@) =~= "MECA5"@);
            assert(ascii_upper("MRI5"@) =~= "MRI5"@);
            assert(ascii_upper("MS-ESD"@) =~= "MS-ESD"@);
            assert(ascii_upper("PERF-E3"@) =~= "PERF-E3"@);
            assert(ascii_upper("PERF-E4"@) =~= "PERF-E4"@);
            assert(ascii_upper("PERF-E5"@) =~= "PERF-E5"@);
            assert(ascii_upper("PERF-II3"@) =~= "PERF-II3"@);
            assert(ascii_upper("PERF-II4"@) =~= "PERF-II4"@);
            assert(ascii_upper("PERF-II5"@) =~= "PERF-II5"@);
            assert(ascii_upper("PERF-ISP3"@) =~= "PERF-ISP3"@);
            assert(ascii_upper("PERF-ISP4"@) =~= "PERF-ISP4"@);
            assert(ascii_upper("PERF-ISP5"@) =~= "PERF-ISP5"@);
            assert(ascii_upper("PERF-NI3"@) =~= "PERF-NI3"@);
            assert(ascii_upper("PERF-NI4"@) =~= "PERF-NI4"@);
            assert(ascii_upper("PERF-NI5"@) =~= "PERF-NI5"@);
            assert(ascii_upper("STPI1"@) =~= "STPI1"@);
            assert(ascii_upper("STPI2"@) =~= "STPI2"@);
        }
        if eq_ignore_ascii_case(s, "AI2") {
            Ok(Department::Ai2)
        } else if eq_ignore_ascii_case(s, "AI3") {
            Ok(Department::Ai3)
        } else if eq_ignore_ascii_case(s, "AI4") {
            Ok(Department::Ai4)
        } else if eq_ignore_ascii_case(s, "ASI5") {
            Ok(Department::Asi5)
        } else if eq_ignore_ascii_case(s, "CGC3") {
            Ok(Department::Cgc3)
        } else if eq_ignore_ascii_case(s, "CGC4") {
            Ok(Department::Cgc4)
        } else if eq_ignore_ascii_case(s, "CP5") {
            Ok(Department::Cp5)
        } else if eq_ignore_ascii_case(s, "EUROMED-SIC") {
            Ok(Department::EuromedSic)
        } else if eq_ignore_ascii_case(s, "EP3") {
            Ok(Department::Ep3)
        } else if eq_ignore_ascii_case(s, "EP4") {
            Ok(Department::Ep4)
        } else if eq_ignore_ascii_case(s, "EP5") {
            Ok(Department::Ep5)
        } else if eq_ignore_ascii_case(s, "GC5") {
            Ok(Department::Gc5)
        } else if eq_ignore_ascii_case(s, "GCU3") {
            Ok(Department::Gcu3)
        } else if eq_ignore_ascii_case(s, "GCU4") {
            Ok(Department::Gcu4)
        } else if eq_ignore_ascii_case(s, "GM3") {
            Ok(Department::Gm3)
        } else if eq_ignore_ascii_case(s, "GM4") {
            Ok(Department::Gm4)
        } else if eq_ignore_ascii_case(s, "GM5") {
            Ok(Department::Gm5)
        } else if eq_ignore_ascii_case(s, "GPGR3") {
            Ok(Department::Gpgr3)
        } else if eq_ignore_ascii_case(s, "GPGR4") {
            Ok(Department::Gpgr4)
        } else if eq_ignore_ascii_case(s, "ITI3") {
            Ok(Department::Iti3)
        } else if eq_ignore_ascii_case(s, "ITI4") {
            Ok(Department::Iti4)
        } else if eq_ignore_ascii_case(s, "M-IC1") {
            Ok(Department::Mic1)
        } else if eq_ignore_ascii_case(s, "M-IC2") {
            Ok(Department::Mic2)
        } else if eq_ignore_ascii_case(s, "MECA3") {
            Ok(Department::Meca3)
        } else if eq_ignore_ascii_case(s, "MECA4") {
            Ok(Department::Meca4)
        } else if eq_ignore_ascii_case(s, "MECA5") {
            Ok(Department::Meca5)
        } else if eq_ignore_ascii_case(s, "MRI5") {
            Ok(Department::Mri5)
        } else if eq_ignore_ascii_case(s, "MS-ESD") {
            Ok(Department::MsEsd)
        } else if eq_ignore_ascii_case(s, "PERF-E3") {
            Ok(Department::PerfE3)
        } else if eq_ignore_ascii_case(s, "PERF-E4") {
            Ok(Department::PerfE4)
        } else if eq_ignore_ascii_case(s, "PERF-E5") {
            Ok(Department::PerfE5)
        } else if eq_ignore_ascii_case(s, "PERF-II3") {
            Ok(Department::PerfIi3)
        } else if eq_ignore_ascii_case(s, "PERF-II4") {
            Ok(Department::PerfIi4)
        } else if eq_ignore_ascii_case(s, "PERF-II5") {
            Ok(Department::PerfIi5)
        } else if eq_ignore_ascii_case(s, "PERF-ISP3") {
            Ok(Department::PerfIsp3)
        } else if eq_ignore_ascii_case(s, "PERF-ISP4") {
            Ok(Department::PerfIsp4)
        } else if eq_ignore_ascii_case(s, "PERF-ISP5") {
            Ok(Department::PerfIsp5)
        } else if eq_ignore_ascii_case(s, "PERF-NI3") {
            Ok(Department::PerfNi3)
        } else if eq_ignore_ascii_case(s, "PERF-NI4") {
            Ok(Department::PerfNi4)
        } else if eq_ignore_ascii_case(s, "PERF-NI5") {
            Ok(Department::PerfNi5)
        } else if eq_ignore_ascii_case(s, "STPI1") {
            Ok(Department::Stpi1)
        } else if eq_ignore_ascii_case(s, "STPI2") {
            Ok(Department::Stpi2)
        } else {
            let mut m = "Impossible to parse: ".to_owned();
            m.append(s);
            m.append(" into a Department enum.");
            Err(m)
        }
    }

    /// The canonical code.
    pub fn as_str(&self) -> (r: &'static str)
        ensures
            r@ == department_code(*self),
    {
        match self {
            Department::Ai2 => "AI2",
            Department::Ai3 => "AI3",
            Department::Ai4 => "AI4",
            Department::Asi5 => "ASI5",
            Department::Cgc3 => "CGC3",
            Department::Cgc4 => "CGC4",
            Department::Cp5 => "CP5",
            Department::EuromedSic => "EUROMED-SIC",
            Department::Ep3 => "EP3",
            Department::Ep4 => "EP4",
            Department::Ep5 => "EP5",
            Department::Gc5 => "GC5",
            Department::Gcu3 => "GCU3",
            Department::Gcu4 => "GCU4",
            Department::Gm3 => "GM3",
            Department::Gm4 => "GM4",
            Department::Gm5 => "GM5",
            Department::Gpgr3 => "GPGR3",
            Department::Gpgr4 => "GPGR4",
            Department::Iti3 => "ITI3",
            Department::Iti4 => "ITI4",
            Department::Mic1 => "M-IC1",
            Department::Mic2 => "M-IC2",
            Department::Meca3 => "MECA3",
            Department::Meca4 => "MECA4",
            Department::Meca5 => "MECA5",
            Department::Mri5 => "MRI5",
            Department::MsEsd => "MS-ESD",
            Department::PerfE3 => "PERF-E3",
            Department::PerfE4 => "PERF-E4",
            Department::PerfE5 => "PERF-E5",
            Department::PerfIi3 => "PERF-II3",
            Department::PerfIi4 => "PERF-II4",
            Department::PerfIi5 => "PERF-II5",
            Department::PerfIsp3 => "PERF-ISP3",
            Department::PerfIsp4 => "PERF-ISP4",
            Department::PerfIsp5 => "PERF-ISP5",
            Department::PerfNi3 => "PERF-NI3",
            Department::PerfNi4 => "PERF-NI4",
            Department::PerfNi5 => "PERF-NI5",
            Department::Stpi1 => "STPI1",
            Department::Stpi2 => "STPI2",
        }
    }

    /// The departments offered to a user.
    pub fn list() -> (r: Vec<Department>)
        ensures
            r@ == seq![Department::Stpi1, Department::Stpi2],
    {
        let r = vec![Department::Stpi1, Department::Stpi2];
        proof {
            assert(r@ =~= seq![Department::Stpi1, Department::Stpi2]);
        }
        r
    }
}

} // verus!
