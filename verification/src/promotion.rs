//! A promotion (year group).
use vstd::prelude::*;
use crate::text::{ascii_upper, eq_ignore_ascii_case};

verus! {

#[derive(Debug, Clone, Copy, PartialEq, Eq, Structural, Hash)]
pub enum Promotion {
    Stpi1,
    Stpi2,
}

/// The canonical code of a promotion.
pub open spec fn promotion_code(v: Promotion) -> Seq<char> {
    match v {
        Promotion::Stpi1 => "STPI1"@,
        Promotion::Stpi2 => "STPI2"@,
    }
}

/// The promotion a code stands for, the code taken uppercase.
pub open spec fn promotion_from_code(u: Seq<char>) -> Option<Promotion> {
    if u == "STPI1"@ {
        Some(Promotion::Stpi1)
    } else if u == "STPI2"@ {
        Some(Promotion::Stpi2)
    } else {
        None
    }
}

impl Promotion {
    /// Reads a promotion from its code, ignoring ASCII case.
    pub fn from_str(s: &str) -> (r: Result<Promotion, String>)
        ensures
            match r {
                Ok(v) => promotion_from_code(ascii_upper(s@)) == Some(v),
                Err(_) => promotion_from_code(ascii_upper(s@)) is None,
            },
    {
        proof {
            reveal_strlit("STPI1");
            reveal_strlit("STPI2");
            assert(ascii_upper("STPI1"@) =~= "STPI1"@);
            assert(ascii_upper("STPI2"@) =~= "STPI2"@);
        }
        if eq_ignore_ascii_case(s, "STPI1") {
            Ok(Promotion::Stpi1)
        } else if eq_ignore_ascii_case(s, "STPI2") {
            Ok(Promotion::Stpi2)
        } else {
            let mut m = "Impossible to parse: ".to_owned();
            m.append(s);
            m.append(" into a Promotion enum.");
            Err(m)
        }
    }

    /// The canonical code.
    pub fn as_str(&self) -> (r: &'static str)
        ensures
            r@ == promotion_code(*self),
    {
        match self {
            Promotion::Stpi1 => "STPI1",
            Promotion::Stpi2 => "STPI2",
        }
    }

    /// The promotions offered to a user.
    pub fn list() -> (r: Vec<Promotion>)
        ensures
            r@ == seq![Promotion::Stpi1, Promotion::Stpi2],
    {
        let r = vec![Promotion::Stpi1, Promotion::Stpi2];
        proof {
            assert(r@ =~= seq![Promotion::Stpi1, Promotion::Stpi2]);
        }
        r
    }
}

} // verus!
