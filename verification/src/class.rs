//! A first-year class letter.
use vstd::prelude::*;
use crate::text::{ascii_upper, eq_ignore_ascii_case};

verus! {

#[derive(Debug, Clone, Copy, PartialEq, Eq, Structural, Hash)]
pub enum Class {
    A,
    B,
    C,
    D,
    E,
    F,
    G,
    H,
    I,
    J,
    K,
}

/// The canonical code of a class.
pub open spec fn class_code(v: Class) -> Seq<char> {
    match v {
        Class::A => "A"@,
        Class::B => "B"@,
        Class::C => "C"@,
        Class::D => "D"@,
        Class::E => "E"@,
        Class::F => "F"@,
        Class::G => "G"@,
        Class::H => "H"@,
        Class::I => "I"@,
        Class::J => "J"@,
        Class::K => "K"@,
    }
}

/// The class a code stands for, the code taken uppercase.
pub open spec fn class_from_code(u: Seq<char>) -> Option<Class> {
    if u == "A"@ {
        Some(Class::A)
    } else if u == "B"@ {
        Some(Class::B)
    } else if u == "C"@ {
        Some(Class::C)
    } else if u == "D"@ {
        Some(Class::D)
    } else if u == "E"@ {
        Some(Class::E)
    } else if u == "F"@ {
        Some(Class::F)
    } else if u == "G"@ {
        Some(Class::G)
    } else if u == "H"@ {
        Some(Class::H)
    } else if u == "I"@ {
        Some(Class::I)
    } else if u == "J"@ {
        Some(Class::J)
    } else if u == "K"@ {
        Some(Class::K)
    } else {
        None
    }
}

impl Class {
    /// Reads a class from its code, ignoring ASCII case.
    pub fn from_str(s: &str) -> (r: Result<Class, String>)
        ensures
            match r {
                Ok(v) => class_from_code(ascii_upper(s@)) == Some(v),
                Err(_) => class_from_code(ascii_upper(s@)) is None,
            },
    {
        proof {
            reveal_strlit("A");
            reveal_strlit("B");
            reveal_strlit("C");
            reveal_strlit("D");
            reveal_strlit("E");
            reveal_strlit("F");
            reveal_strlit("G");
            reveal_strlit("H");
            reveal_strlit("I");
            reveal_strlit("J");
            reveal_strlit("K");
            assert(ascii_upper("A"@) =~= "A"@);
            assert(ascii_upper("B"@) =~= "B"@);
            assert(ascii_upper("C"@) =~= "C"@);
            assert(ascii_upper("D"@) =~= "D"@);
            assert(ascii_upper("E"@) =~= "E"@);
            assert(ascii_upper("F"@) =~= "F"@);
            assert(ascii_upper("G"@) =~= "G"@);
            assert(ascii_upper("H"@) =~= "H"@);
            assert(ascii_upper("I"@) =~= "I"@);
            assert(ascii_upper("J"@) =~= "J"@);
            assert(ascii_upper("K"@) =~= "K"@);
        }
        if eq_ignore_ascii_case(s, "A") {
            Ok(Class::A)
        } else if eq_ignore_ascii_case(s, "B") {
            Ok(Class::B)
        } else if eq_ignore_ascii_case(s, "C") {
            Ok(Class::C)
        } else if eq_ignore_ascii_case(s, "D") {
            Ok(Class::D)
        } else if eq_ignore_ascii_case(s, "E") {
            Ok(Class::E)
        } else if eq_ignore_ascii_case(s, "F") {
            Ok(Class::F)
        } else if eq_ignore_ascii_case(s, "G") {
            Ok(Class::G)
        } else if eq_ignore_ascii_case(s, "H") {
            Ok(Class::H)
        } else if eq_ignore_ascii_case(s, "I") {
            Ok(Class::I)
        } else if eq_ignore_ascii_case(s, "J") {
            Ok(Class::J)
        } else if eq_ignore_ascii_case(s, "K") {
            Ok(Class::K)
        } else {
            let mut m = "Impossible to parse: ".to_owned();
            m.append(s);
            m.append(" into a Class enum.");
            Err(m)
        }
    }

    /// The canonical code.
    pub fn as_str(&self) -> (r: &'static str)
        ensures
            r@ == class_code(*self),
    {
        match self {
            Class::A => "A",
            Class::B => "B",
            Class::C => "C",
            Class::D => "D",
            Class::E => "E",
            Class::F => "F",
            Class::G => "G",
            Class::H => "H",
            Class::I => "I",
            Class::J => "J",
            Class::K => "K",
        }
    }

    /// The classs offered to a user.
    pub fn list() -> (r: Vec<Class>)
        ensures
            r@ == seq![Class::A, Class::B, Class::C, Class::D, Class::E, Class::F, Class::G, Class::H, Class::I, Class::J, Class::K],
    {
        let r = vec![Class::A, Class::B, Class::C, Class::D, Class::E, Class::F, Class::G, Class::H, Class::I, Class::J, Class::K];
        proof {
            assert(r@ =~= seq![Class::A, Class::B, Class::C, Class::D, Class::E, Class::F, Class::G, Class::H, Class::I, Class::J, Class::K]);
        }
        r
    }
}

} // verus!
