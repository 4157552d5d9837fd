//! A second language taught at the school.
use vstd::prelude::*;
use crate::text::{ascii_upper, eq_ignore_ascii_case};

verus! {

#[derive(Debug, Clone, Copy, PartialEq, Eq, Structural, Hash)]
pub enum Language {
    All,
    Esp,
    AllDeb,
    EspDeb,
    Fle,
}

/// The canonical code of a language.
pub open spec fn language_code(v: Language) -> Seq<char> {
    match v {
        Language::All => "ALL"@,
        Language::Esp => "ESP"@,
        Language::AllDeb => "ALL-DEB"@,
        Language::EspDeb => "ESP-DEB"@,
        Language::Fle => "FLE"@,
    }
}

/// The language a code stands for, the code taken uppercase.
pub open spec fn language_from_code(u: Seq<char>) -> Option<Language> {
    if u == "ALL"@ {
        Some(Language::All)
    } else if u == "ESP"@ {
        Some(Language::Esp)
    } else if u == "ALL-DEB"@ {
        Some(Language::AllDeb)
    } else if u == "ESP-DEB"@ {
        Some(Language::EspDeb)
    } else if u == "FLE"@ {
        Some(Language::Fle)
    } else {
        None
    }
}

impl Language {
    /// Reads a language from its code, ignoring ASCII case.
    pub fn from_str(s: &str) -> (r: Result<Language, String>)
        ensures
            match r {
                Ok(v) => language_from_code(ascii_upper(s@)) == Some(v),
                Err(_) => language_from_code(ascii_upper(s@)) is None,
            },
    {
        proof {
            reveal_strlit("ALL");
            reveal_strlit("ESP");
            reveal_strlit("ALL-DEB");
            reveal_strlit("ESP-DEB");
            reveal_strlit("FLE");
            assert(ascii_upper("ALL"@) =~= "ALL"@);
            assert(ascii_upper("ESP"@) =~= "ESP"@);
            assert(ascii_upper("ALL-DEB"@) =~= "ALL-DEB"@);
            assert(ascii_upper("ESP-DEB"@) =~= "ESP-DEB"@);
            assert(ascii_upper("FLE"@) =~= "FLE"@);
        }
        if eq_ignore_ascii_case(s, "ALL") {
            Ok(Language::All)
        } else if eq_ignore_ascii_case(s, "ESP") {
            Ok(Language::Esp)
        } else if eq_ignore_ascii_case(s, "ALL-DEB") {
            Ok(Language::AllDeb)
        } else if eq_ignore_ascii_case(s, "ESP-DEB") {
            Ok(Language::EspDeb)
        } else if eq_ignore_ascii_case(s, "FLE") {
            Ok(Language::Fle)
        } else {
            let mut m = "Impossible to parse: ".to_owned();
            m.append(s);
            m.append(" into a Language enum.");
            Err(m)
        }
    }

    /// The canonical code.
    pub fn as_str(&self) -> (r: &'static str)
        ensures
            r@ == language_code(*self),
    {
        match self {
            Language::All => "ALL",
            Language::Esp => "ESP",
            Language::AllDeb => "ALL-DEB",
            Language::EspDeb => "ESP-DEB",
            Language::Fle => "FLE",
        }
    }

    /// The languages offered to a user.
    pub fn list() -> (r: Vec<Language>)
        ensures
            r@ == seq![Language::AllDeb, Language::EspDeb, Language::All, Language::Esp, Language::Fle],
    {
        let r = vec![Language::AllDeb, Language::EspDeb, Language::All, Language::Esp, Language::Fle];
        proof {
            assert(r@ =~= seq![Language::AllDeb, Language::EspDeb, Language::All, Language::Esp, Language::Fle]);
        }
        r
    }
}

} // verus!
