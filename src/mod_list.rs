use crate::types::{Mod, ModType};
use vstd::prelude::*;

verus! {

/// The link that a line of the mod list starts with for a mod hosted on Modrinth.
pub const MODRINTH_LINK: &'static str = "https://modrinth.com/mod/";

pub open spec fn starts_with(s: Seq<char>, p: Seq<char>) -> bool {
    p.len() <= s.len() && s.subrange(0, p.len() as int) == p
}

/// `s` with every leading copy of `p` taken off.
pub open spec fn strip_leading(s: Seq<char>, p: Seq<char>) -> Seq<char>
    decreases s.len(),
{
    if p.len() > 0 && starts_with(s, p) {
        strip_leading(s.skip(p.len() as int), p)
    } else {
        s
    }
}

fn starts_with_at(s: &str, n: usize, pos: usize, p: &str, plen: usize) -> (r: bool)
    requires
        n == s@.len(),
        plen == p@.len(),
        pos <= n,
    ensures
        r == starts_with(s@.skip(pos as int), p@),
{
    if plen > n - pos {
        return false;
    }
    let mut k: usize = 0;
    while k < plen
        invariant
            n == s@.len(),
            plen == p@.len(),
            pos + plen <= n,
            k <= plen,
            forall|q: int| 0 <= q < k ==> s@[pos + q] == #[trigger] p@[q],
        decreases plen - k,
    {
        if s.get_char(pos + k) != p.get_char(k) {
            assert(s@.skip(pos as int).subrange(0, plen as int)[k as int] != p@[k as int]);
            return false;
        }
        k = k + 1;
    }
    assert(s@.skip(pos as int).subrange(0, plen as int) =~= p@);
    true
}

/// Reads one line of a mod list: a Modrinth link gives the mod named by the
/// rest of the line; any other line gives no mod.
pub fn parse_mod_line(line: &str) -> (r: Option<Mod>)
    ensures
        r is Some <==> starts_with(line@, MODRINTH_LINK@),
        r matches Some(m) ==> m.name@ == strip_leading(line@, MODRINTH_LINK@) && m.mod_type
            == ModType::ModrinthModType,
{
    let n = line.unicode_len();
    let plen = MODRINTH_LINK.unicode_len();
    proof {
        reveal_strlit("https://modrinth.com/mod/");
    }
    assert(line@.skip(0) =~= line@);
    if !starts_with_at(line, n, 0, MODRINTH_LINK, plen) {
        return None;
    }
    let mut pos: usize = 0;
    while pos < n && starts_with_at(line, n, pos, MODRINTH_LINK, plen)
        invariant
            n == line@.len(),
            plen == MODRINTH_LINK@.len(),
            plen > 0,
            pos <= n,
            strip_leading(line@, MODRINTH_LINK@) == strip_leading(line@.skip(pos as int), MODRINTH_LINK@),
        decreases n - pos,
    {
        assert(line@.skip(pos as int).skip(plen as int) =~= line@.skip(pos + plen));
        pos = pos + plen;
    }
    if pos >= n {
        assert(line@.skip(pos as int) =~= Seq::<char>::empty());
    }
    let rest = line.substring_char(pos, n);
    assert(rest@ =~= line@.skip(pos as int));
    Some(Mod { name: rest.to_string(), mod_type: ModType::ModrinthModType })
}

} // verus!
