//! A short public description of one user.
use vstd::prelude::*;
use crate::text::ascii_upper_char;

verus! {

/// One user: the numeric account id, the school email address, and an
/// optional profile picture reference.
#[derive(Debug, Clone, PartialEq)]
pub struct UserDesc {
    pub uid: i64,
    pub email: String,
    pub picture: Option<String>,
}

/// The index of the first `@` in the text, or its end.
pub open spec fn sp_at_end(t: Seq<char>, i: nat) -> nat
    decreases t.len() - i,
{
    if i < t.len() && t[i as int] != '@' {
        sp_at_end(t, i + 1)
    } else {
        i
    }
}

/// The part of an email address before its first `@`: the username.
pub open spec fn username_of(e: Seq<char>) -> Seq<char> {
    e.take(sp_at_end(e, 0) as int)
}

/// The username with each `.` replaced by `_`.
pub open spec fn mastodon_name_of(e: Seq<char>) -> Seq<char> {
    username_of(e).map_values(
        |c: char|
            if c == '.' {
                '_'
            } else {
                c
            },
    )
}

proof fn lemma_at_end_unique(t: Seq<char>, i: nat, j: nat)
    requires
        i <= j <= t.len(),
        forall|k: int| i <= k < j ==> #[trigger] t[k] != '@',
        j == t.len() || t[j as int] == '@',
    ensures
        sp_at_end(t, i) == j,
    decreases j - i,
{
    if i < j {
        lemma_at_end_unique(t, i + 1, j);
    }
}

impl UserDesc {
    /// A fresh description: no profile picture yet.
    pub fn new(uid: i64, email: String) -> (r: Self)
        ensures
            r.uid == uid,
            r.email@ == email@,
            r.picture is None,
    {
        UserDesc { uid, email, picture: None }
    }

    /// The username: what stands before the first `@` of the email address.
    pub fn get_username(&self) -> (r: String)
        ensures
            r@ == username_of(self.email@),
    {
        let e = self.email.as_str();
        let elen = e.unicode_len();
        let mut i: usize = 0;
        while i < elen && e.get_char(i) != '@'
            invariant
                0 <= i <= elen,
                elen == e@.len(),
                forall|k: int| 0 <= k < i ==> #[trigger] e@[k] != '@',
            decreases elen - i,
        {
            i = i + 1;
        }
        proof {
            lemma_at_end_unique(e@, 0, i as nat);
        }
        e.substring_char(0, i).to_owned()
    }

    /// The username written for a Mastodon handle: `.` becomes `_`.
    pub fn get_mastodon_username(&self) -> (r: String)
        ensures
            r@ == mastodon_name_of(self.email@),
    {
        let un = self.get_username();
        let u = un.as_str();
        let ulen = u.unicode_len();
        let mut out = String::new();
        let ghost target = mastodon_name_of(self.email@);
        let mut i: usize = 0;
        while i < ulen
            invariant
                0 <= i <= ulen,
                ulen == u@.len(),
                u@ == username_of(self.email@),
                target == mastodon_name_of(self.email@),
                out@ == target.take(i as int),
            decreases ulen - i,
        {
            let c = u.get_char(i);
            if c == '.' {
                out.push('_');
            } else {
                out.push(c);
            }
            proof {
                assert(out@ =~= target.take(i + 1));
            }
            i = i + 1;
        }
        proof {
            assert(target.take(target.len() as int) =~= target);
        }
        out
    }
}

} // verus!
