use vstd::prelude::*;

verus! {

/// Where the mod comes from.
#[derive(Debug, Clone, Copy, PartialEq, Eq, Structural)]
pub enum ModType {
    ForgeModType,
    ModrinthModType,
}

/// Metadata about a mod.
#[derive(Debug, Clone)]
pub struct Mod {
    pub name: String,
    pub mod_type: ModType,
}

/// A dotted platform version such as `1.16.5`, kept verbatim.
#[derive(Debug, Clone, Hash)]
pub struct MCVersion {
    pub str: String,
}

impl PartialEq for MCVersion {
    fn eq(&self, other: &MCVersion) -> (r: bool) {
        self.str == other.str
    }
}

impl vstd::std_specs::cmp::PartialEqSpecImpl for MCVersion {
    open spec fn obeys_eq_spec() -> bool {
        true
    }

    open spec fn eq_spec(&self, other: &MCVersion) -> bool {
        self.str@ == other.str@
    }
}

impl Eq for MCVersion {
}

/// A release on the project's page.
#[derive(Debug, Clone)]
pub struct ModRelease {
    pub mc_versions: Vec<MCVersion>,
    /// release number
    pub release: String,
    pub loaders: Vec<String>,
}

/// A mod with all of its releases.
pub struct ModAndReleases {
    pub mod_item: Mod,
    pub releases: Vec<ModRelease>,
}

/// Filters on releases; each one that is set must hold.
pub struct Constraints {
    pub min_mc_version: Option<String>,
    pub exact_mc_version: Option<String>,
    pub loader: Option<String>,
}

pub open spec fn is_digit(c: char) -> bool {
    '0' <= c && c <= '9'
}

pub open spec fn digit_value(c: char) -> nat {
    (c as int - '0' as int) as nat
}

/// The decimal value of a string of digits.
pub open spec fn decimal(p: Seq<char>) -> nat
    decreases p.len(),
{
    if p.len() == 0 {
        0
    } else {
        decimal(p.drop_last()) * 10 + digit_value(p.last())
    }
}

/// The pieces of `s` between dots; the empty string is one empty piece.
pub open spec fn split_dots(s: Seq<char>) -> Seq<Seq<char>>
    decreases s.len(),
{
    if s.len() == 0 {
        seq![Seq::<char>::empty()]
    } else if s.last() == '.' {
        split_dots(s.drop_last()).push(Seq::<char>::empty())
    } else {
        let ps = split_dots(s.drop_last());
        ps.update(ps.len() - 1, ps.last().push(s.last()))
    }
}

/// A component is a non-empty run of digits, of any length.
pub open spec fn component_wf(p: Seq<char>) -> bool {
    &&& p.len() > 0
    &&& forall|k: int| 0 <= k < p.len() ==> is_digit(#[trigger] p[k])
}

/// How two natural numbers order.
pub open spec fn nat_order(x: nat, y: nat) -> std::cmp::Ordering {
    if x < y {
        std::cmp::Ordering::Less
    } else if x > y {
        std::cmp::Ordering::Greater
    } else {
        std::cmp::Ordering::Equal
    }
}

/// `k` zero digits.
pub open spec fn zeros(k: nat) -> Seq<char> {
    Seq::new(k, |_i: int| '0')
}

/// A version string that comparison accepts: every dotted component is a number.
pub open spec fn version_wf(s: Seq<char>) -> bool {
    forall|k: int| 0 <= k < split_dots(s).len() ==> component_wf(#[trigger] split_dots(s)[k])
}

/// The numeric components of a version string.
pub open spec fn components(s: Seq<char>) -> Seq<nat> {
    split_dots(s).map_values(|p: Seq<char>| decimal(p))
}

/// Walks `a` from index `i` on: where `b` has run out `a` is greater, the first
/// differing component decides, and at the end `a` is less only if it is shorter.
pub open spec fn order_from(a: Seq<nat>, b: Seq<nat>, i: nat) -> std::cmp::Ordering
    decreases a.len() - i,
{
    if i >= a.len() {
        if a.len() < b.len() {
            std::cmp::Ordering::Less
        } else {
            std::cmp::Ordering::Equal
        }
    } else if i >= b.len() {
        std::cmp::Ordering::Greater
    } else if a[i as int] < b[i as int] {
        std::cmp::Ordering::Less
    } else if a[i as int] > b[i as int] {
        std::cmp::Ordering::Greater
    } else {
        order_from(a, b, i + 1)
    }
}

/// How version string `a` orders against version string `b`.
pub open spec fn version_order(a: Seq<char>, b: Seq<char>) -> std::cmp::Ordering {
    order_from(components(a), components(b), 0)
}

pub open spec fn flip(o: std::cmp::Ordering) -> std::cmp::Ordering {
    match o {
        std::cmp::Ordering::Less => std::cmp::Ordering::Greater,
        std::cmp::Ordering::Equal => std::cmp::Ordering::Equal,
        std::cmp::Ordering::Greater => std::cmp::Ordering::Less,
    }
}

/// Swapping the operands reverses the order.
pub proof fn lemma_order_from_flip(a: Seq<nat>, b: Seq<nat>, i: nat)
    requires
        i <= a.len(),
        i <= b.len(),
    ensures
        order_from(b, a, i) == flip(order_from(a, b, i)),
    decreases a.len() - i,
{
    if i < a.len() && i < b.len() && a[i as int] == b[i as int] {
        lemma_order_from_flip(a, b, i + 1);
    }
}

/// Every version is equal to itself.
pub proof fn lemma_order_from_refl(a: Seq<nat>, i: nat)
    ensures
        order_from(a, a, i) == std::cmp::Ordering::Equal,
    decreases a.len() - i,
{
    if i < a.len() {
        lemma_order_from_refl(a, i + 1);
    }
}

/// The order is transitive, and strictly so where either step is strict.
pub proof fn lemma_order_from_trans(a: Seq<nat>, b: Seq<nat>, c: Seq<nat>, i: nat)
    requires
        i <= a.len(),
        i <= b.len(),
        i <= c.len(),
        order_from(a, b, i) != std::cmp::Ordering::Greater,
        order_from(b, c, i) != std::cmp::Ordering::Greater,
    ensures
        order_from(a, c, i) != std::cmp::Ordering::Greater,
        order_from(a, b, i) == std::cmp::Ordering::Less || order_from(b, c, i)
            == std::cmp::Ordering::Less ==> order_from(a, c, i) == std::cmp::Ordering::Less,
    decreases a.len() - i,
{
    if i < a.len() && i < b.len() && i < c.len() && a[i as int] == b[i as int] && b[i as int]
        == c[i as int] {
        lemma_order_from_trans(a, b, c, i + 1);
    }
}

proof fn lemma_decimal_zeros(k: nat)
    ensures
        decimal(zeros(k)) == 0,
    decreases k,
{
    if k > 0 {
        lemma_decimal_zeros((k - 1) as nat);
        assert(zeros(k).drop_last() =~= zeros((k - 1) as nat));
    }
}

/// Leading zeros leave the value as it is.
proof fn lemma_decimal_zero_padded(k: nat, p: Seq<char>)
    ensures
        decimal(zeros(k) + p) == decimal(p),
    decreases p.len(),
{
    if p.len() == 0 {
        assert(zeros(k) + p =~= zeros(k));
        lemma_decimal_zeros(k);
    } else {
        lemma_decimal_zero_padded(k, p.drop_last());
        assert((zeros(k) + p).drop_last() =~= zeros(k) + p.drop_last());
        assert((zeros(k) + p).last() == p.last());
    }
}

/// Appending one digit to each of two numbers keeps an order already decided.
proof fn lemma_order_append_digit(a: nat, b: nat, x: nat, y: nat)
    requires
        x <= 9,
        y <= 9,
    ensures
        nat_order(a * 10 + x, b * 10 + y) == if a == b {
            nat_order(x, y)
        } else {
            nat_order(a, b)
        },
{
    if a < b {
        assert(a * 10 + x < b * 10 + y) by (nonlinear_arith)
            requires
                a < b,
                x <= 9,
        ;
    } else if a > b {
        assert(a * 10 + x > b * 10 + y) by (nonlinear_arith)
            requires
                a > b,
                y <= 9,
        ;
    }
}

fn split_chars(s: &str) -> (r: Vec<Vec<char>>)
    ensures
        r@.map_values(|v: Vec<char>| v@) == split_dots(s@),
{
    let n = s.unicode_len();
    let mut parts: Vec<Vec<char>> = Vec::new();
    let mut cur: Vec<char> = Vec::new();
    let mut i: usize = 0;
    assert(s@.take(0) =~= Seq::<char>::empty());
    while i < n
        invariant
            n == s@.len(),
            i <= n,
            parts@.map_values(|v: Vec<char>| v@).push(cur@) == split_dots(s@.take(i as int)),
        decreases n - i,
    {
        let c = s.get_char(i);
        assert(s@.take(i + 1).drop_last() =~= s@.take(i as int));
        if c == '.' {
            let ghost before = parts@;
            parts.push(cur);
            cur = Vec::new();
            assert(parts@.map_values(|v: Vec<char>| v@) =~= before.map_values(|v: Vec<char>| v@).push(
                split_dots(s@.take(i as int)).last(),
            ));
            assert(parts@.map_values(|v: Vec<char>| v@).push(cur@) =~= split_dots(s@.take(i + 1)));
        } else {
            cur.push(c);
            assert(parts@.map_values(|v: Vec<char>| v@).push(cur@) =~= split_dots(s@.take(i + 1)));
        }
        i = i + 1;
    }
    assert(s@.take(n as int) =~= s@);
    let ghost before = parts@;
    parts.push(cur);
    assert(parts@.map_values(|v: Vec<char>| v@) =~= before.map_values(|v: Vec<char>| v@).push(cur@));
    parts
}

fn component_is_wf(p: &Vec<char>) -> (r: bool)
    ensures
        r == component_wf(p@),
{
    if p.len() == 0 {
        return false;
    }
    let mut j: usize = 0;
    while j < p.len()
        invariant
            j <= p.len(),
            forall|k: int| 0 <= k < j ==> is_digit(#[trigger] p@[k]),
        decreases p.len() - j,
    {
        let c = p[j];
        if !('0' <= c && c <= '9') {
            return false;
        }
        j = j + 1;
    }
    true
}

/// Orders two runs of digits by their values, whatever their lengths: the
/// shorter one is read as if padded with leading zeros.
fn compare_component(p: &Vec<char>, q: &Vec<char>) -> (r: std::cmp::Ordering)
    requires
        component_wf(p@),
        component_wf(q@),
    ensures
        r == nat_order(decimal(p@), decimal(q@)),
{
    let m = p.len();
    let n = q.len();
    let len = if m > n {
        m
    } else {
        n
    };
    let ghost pp = zeros((len - m) as nat) + p@;
    let ghost qq = zeros((len - n) as nat) + q@;
    let mut s = std::cmp::Ordering::Equal;
    let mut j: usize = 0;
    assert(pp.take(0) =~= Seq::<char>::empty());
    assert(qq.take(0) =~= Seq::<char>::empty());
    while j < len
        invariant
            m == p@.len(),
            n == q@.len(),
            m <= len,
            n <= len,
            component_wf(p@),
            component_wf(q@),
            pp == zeros((len - m) as nat) + p@,
            qq == zeros((len - n) as nat) + q@,
            j <= len,
            s == nat_order(decimal(pp.take(j as int)), decimal(qq.take(j as int))),
        decreases len - j,
    {
        let x = if j < len - m {
            '0'
        } else {
            p[j - (len - m)]
        };
        let y = if j < len - n {
            '0'
        } else {
            q[j - (len - n)]
        };
        assert(x == pp[j as int]);
        assert(y == qq[j as int]);
        assert(is_digit(x));
        assert(is_digit(y));
        let dx = (x as u32) - ('0' as u32);
        let dy = (y as u32) - ('0' as u32);
        proof {
            assert(pp.take(j + 1).drop_last() =~= pp.take(j as int));
            assert(qq.take(j + 1).drop_last() =~= qq.take(j as int));
            lemma_order_append_digit(
                decimal(pp.take(j as int)),
                decimal(qq.take(j as int)),
                dx as nat,
                dy as nat,
            );
        }
        if let std::cmp::Ordering::Equal = s {
            s = if dx < dy {
                std::cmp::Ordering::Less
            } else if dx > dy {
                std::cmp::Ordering::Greater
            } else {
                std::cmp::Ordering::Equal
            };
        }
        j = j + 1;
    }
    proof {
        assert(pp.take(len as int) =~= pp);
        assert(qq.take(len as int) =~= qq);
        lemma_decimal_zero_padded((len - m) as nat, p@);
        lemma_decimal_zero_padded((len - n) as nat, q@);
    }
    s
}

impl View for MCVersion {
    type V = Seq<char>;

    open spec fn view(&self) -> Seq<char> {
        self.str@
    }
}

impl MCVersion {
    pub fn new(str: &str) -> (r: Self)
        ensures
            r@ == str@,
    {
        MCVersion { str: str.to_string() }
    }

    /// Whether every dotted component is a non-empty run of digits.
    pub fn is_well_formed(&self) -> (r: bool)
        ensures
            r == version_wf(self@),
    {
        let parts = split_chars(self.str.as_str());
        let ghost ps = split_dots(self@);
        let mut k: usize = 0;
        while k < parts.len()
            invariant
                parts@.map_values(|v: Vec<char>| v@) == ps,
                ps == split_dots(self@),
                ps.len() == parts.len(),
                k <= parts.len(),
                forall|q: int| 0 <= q < k ==> component_wf(#[trigger] ps[q]),
            decreases parts.len() - k,
        {
            assert(parts@[k as int]@ == ps[k as int]);
            if !component_is_wf(&parts[k]) {
                return false;
            }
            k = k + 1;
        }
        true
    }

    /// Orders two versions by their numeric components.
    pub fn compare(&self, other: &MCVersion) -> (r: std::cmp::Ordering)
        requires
            version_wf(self@),
            version_wf(other@),
        ensures
            r == version_order(self@, other@),
    {
        let a = split_chars(self.str.as_str());
        let b = split_chars(other.str.as_str());
        let ghost pa = split_dots(self@);
        let ghost pb = split_dots(other@);
        let mut i: usize = 0;
        while i < a.len()
            invariant
                a@.map_values(|v: Vec<char>| v@) == pa,
                b@.map_values(|v: Vec<char>| v@) == pb,
                pa == split_dots(self@),
                pb == split_dots(other@),
                pa.len() == a.len(),
                pb.len() == b.len(),
                version_wf(self@),
                version_wf(other@),
                i <= a.len(),
                version_order(self@, other@) == order_from(components(self@), components(other@), i as nat),
            decreases a.len() - i,
        {
            if i >= b.len() {
                return std::cmp::Ordering::Greater;
            }
            assert(a@[i as int]@ == pa[i as int]);
            assert(b@[i as int]@ == pb[i as int]);
            assert(components(self@)[i as int] == decimal(pa[i as int]));
            assert(components(other@)[i as int] == decimal(pb[i as int]));
            match compare_component(&a[i], &b[i]) {
                std::cmp::Ordering::Less => {
                    return std::cmp::Ordering::Less;
                },
                std::cmp::Ordering::Greater => {
                    return std::cmp::Ordering::Greater;
                },
                std::cmp::Ordering::Equal => {},
            }
            i = i + 1;
        }
        if a.len() < b.len() {
            return std::cmp::Ordering::Less;
        }
        std::cmp::Ordering::Equal
    }
}

} // verus!
