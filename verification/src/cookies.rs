//! The client's cookie store: an insertion-ordered set of named
//! values, rendered into a request header on demand.

use vstd::prelude::*;

verus! {

/// The mapping a cookie list denotes: later entries win.
pub open spec fn jar_map(s: Seq<(String, String)>) -> Map<Seq<char>, Seq<char>>
    decreases s.len(),
{
    if s.len() == 0 {
        Map::empty()
    } else {
        jar_map(s.drop_last()).insert(s.last().0@, s.last().1@)
    }
}

/// The cookie-header text a cookie list denotes.
pub open spec fn spec_header(s: Seq<(String, String)>) -> Seq<char>
    decreases s.len(),
{
    if s.len() == 0 {
        Seq::empty()
    } else if s.len() == 1 {
        s[0].0@ + seq!['='] + s[0].1@
    } else {
        spec_header(s.drop_last()) + seq![';', ' '] + s.last().0@ + seq!['='] + s.last().1@
    }
}

/// A name is in the mapping exactly when some entry carries it.
proof fn lemma_jar_map_domain(s: Seq<(String, String)>, n: Seq<char>)
    ensures
        jar_map(s).contains_key(n) <==> exists|i: int| 0 <= i < s.len() && s[i].0@ == n,
    decreases s.len(),
{
    if s.len() > 0 {
        lemma_jar_map_domain(s.drop_last(), n);
        if exists|i: int| 0 <= i < s.len() && s[i].0@ == n {
            let i = choose|i: int| 0 <= i < s.len() && s[i].0@ == n;
            if i < s.len() - 1 {
                assert(s.drop_last()[i].0@ == n);
            }
        }
        if exists|i: int| 0 <= i < s.drop_last().len() && s.drop_last()[i].0@ == n {
            let i = choose|i: int| 0 <= i < s.drop_last().len() && s.drop_last()[i].0@ == n;
            assert(s[i].0@ == n);
        }
    }
}

/// A store of cookies for the session, by name.
pub struct CookieJar {
    /// The stored cookies, in insertion order, names unique.
    pub cookies: Vec<(String, String)>,
}

impl CookieJar {
    /// Names are unique, so each lookup has one answer.
    pub open spec fn wf(&self) -> bool {
        forall|i: int, j: int|
            0 <= i < j < self.cookies@.len() ==> self.cookies@[i].0@ != self.cookies@[j].0@
    }

    /// The mapping this jar holds.
    pub open spec fn view_map(&self) -> Map<Seq<char>, Seq<char>> {
        jar_map(self.cookies@)
    }

    /// An empty jar.
    pub fn new() -> (r: CookieJar)
        ensures
            r.wf(),
            r.view_map() == Map::<Seq<char>, Seq<char>>::empty(),
    {
        CookieJar { cookies: Vec::new() }
    }

    /// adds a cookie to the store, replacing one of the same name
    pub fn add_cookie(&mut self, name: String, value: String)
        requires
            old(self).wf(),
        ensures
            final(self).wf(),
            final(self).view_map() == old(self).view_map().insert(name@, value@),
    {
        let n = self.cookies.len();
        let mut i: usize = 0;
        while i < n
            invariant
                i <= n == self.cookies@.len(),
                forall|j: int| 0 <= j < i ==> self.cookies@[j].0@ != name@,
                *self == *old(self),
                self.wf(),
            decreases n - i,
        {
            if self.cookies[i].0 == name {
                let ghost s0 = self.cookies@;
                self.cookies[i] = (name, value);
                proof {
                    lemma_jar_map_update(s0, i as int, self.cookies@[i as int]);
                }
                return ;
            }
            i = i + 1;
        }
        let ghost s0 = self.cookies@;
        self.cookies.push((name, value));
        proof {
            assert(self.cookies@.drop_last() =~= s0);
            assert forall|i2: int, j2: int| 0 <= i2 < j2 < self.cookies@.len() implies self.cookies@[i2].0@
                != self.cookies@[j2].0@ by {
                if j2 < self.cookies@.len() - 1 {
                    assert(s0[i2].0@ != s0[j2].0@);
                }
            }
        }
    }

    /// whether a cookie of this name is in the store
    pub fn cookie_exists(&self, name: &str) -> (r: bool)
        ensures
            r == self.view_map().contains_key(name@),
    {
        let name_owned = name.to_owned();
        let n = self.cookies.len();
        let mut i: usize = 0;
        while i < n
            invariant
                name_owned@ == name@,
                i <= n == self.cookies@.len(),
                forall|j: int| 0 <= j < i ==> self.cookies@[j].0@ != name@,
            decreases n - i,
        {
            if self.cookies[i].0 == name_owned {
                proof {
                    lemma_jar_map_domain(self.cookies@, name@);
                }
                return true;
            }
            i = i + 1;
        }
        proof {
            lemma_jar_map_domain(self.cookies@, name@);
        }
        false
    }

    /// The cookie request-header text: the entries joined as
    /// `name=value` pairs separated by `; `.
    pub fn header_value(&self) -> (r: String)
        ensures
            r@ == spec_header(self.cookies@),
    {
        let mut out = String::new();
        let n = self.cookies.len();
        let mut i: usize = 0;
        while i < n
            invariant
                i <= n == self.cookies@.len(),
                out@ == spec_header(self.cookies@.take(i as int)),
            decreases n - i,
        {
            if i > 0 {
                out.append("; ");
            }
            out.append(self.cookies[i].0.as_str());
            out.append("=");
            out.append(self.cookies[i].1.as_str());
            proof {
                reveal_strlit("=");
                reveal_strlit("; ");
                let t = self.cookies@.take(i + 1);
                assert(t.drop_last() =~= self.cookies@.take(i as int));
                assert(t.last() == self.cookies@[i as int]);
                assert(out@ =~= spec_header(t));
            }
            i = i + 1;
        }
        proof {
            assert(self.cookies@.take(n as int) =~= self.cookies@);
        }
        out
    }
}

/// Replacing the one entry that carries a name denotes the same
/// mapping as inserting the new value for that name.
proof fn lemma_jar_map_update(s: Seq<(String, String)>, i: int, p: (String, String))
    requires
        0 <= i < s.len(),
        s[i].0@ == p.0@,
        forall|a: int, b: int| 0 <= a < b < s.len() ==> s[a].0@ != s[b].0@,
    ensures
        jar_map(s.update(i, p)) =~= jar_map(s).insert(p.0@, p.1@),
    decreases s.len(),
{
    let u = s.update(i, p);
    if i == s.len() - 1 {
        assert(u.drop_last() =~= s.drop_last());
        assert(u.last() == p);
        assert(jar_map(s).insert(p.0@, p.1@) =~= jar_map(s.drop_last()).insert(p.0@, p.1@));
    } else {
        assert(u.drop_last() =~= s.drop_last().update(i, p));
        assert(u.last() == s.last());
        lemma_jar_map_update(s.drop_last(), i, p);
        assert(s.last().0@ != p.0@);
    }
}

} // verus!
