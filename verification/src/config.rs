//! Engine configurations: named apps and canonical link specs.
use vstd::prelude::*;

use crate::engine::AppConfig;
use crate::push_char;

verus! {

/// A parsed link spec: `from.output -> to.input`.
pub struct LinkSpec {
    pub from: String,
    pub output: String,
    pub to: String,
    pub input: String,
}

impl View for LinkSpec {
    type V = (Seq<char>, Seq<char>, Seq<char>, Seq<char>);

    open spec fn view(&self) -> (Seq<char>, Seq<char>, Seq<char>, Seq<char>) {
        (self.from@, self.output@, self.to@, self.input@)
    }
}

impl LinkSpec {
    /// An identical copy.
    pub fn duplicate(&self) -> (r: LinkSpec)
        ensures
            r@ == self@,
    {
        LinkSpec {
            from: self.from.clone(),
            output: self.output.clone(),
            to: self.to.clone(),
            input: self.input.clone(),
        }
    }

    /// Whether two specs name the same link.
    pub fn same(&self, other: &LinkSpec) -> (r: bool)
        ensures
            r == (self@ == other@),
    {
        let r = self.from == other.from && self.output == other.output && self.to == other.to
            && self.input == other.input;
        proof {
            if r {
                assert(self@ == other@);
            }
        }
        r
    }
}

/// A word character: a letter, a digit, or an underscore.
pub open spec fn is_word_char(c: char) -> bool {
    ('a' as int <= c as int && c as int <= 'z' as int) || ('A' as int <= c as int && c as int
        <= 'Z' as int) || ('0' as int <= c as int && c as int <= '9' as int) || c == '_'
}

/// The first index at or past `i` that does not hold a space.
pub open spec fn skip_spaces(s: Seq<char>, i: int) -> int
    decreases s.len() - i,
{
    if i < s.len() && s[i] == ' ' {
        skip_spaces(s, i + 1)
    } else {
        i
    }
}

/// The first index at or past `i` that does not hold a word character.
pub open spec fn ident_end(s: Seq<char>, i: int) -> int
    decreases s.len() - i,
{
    if i < s.len() && is_word_char(s[i]) {
        ident_end(s, i + 1)
    } else {
        i
    }
}

/// The grammar of a link spec: optional spaces, `name.port`, spaces,
/// `->`, spaces, `name.port`, optional trailing spaces. The result holds
/// the four captured words.
pub open spec fn link_parse_spec(s: Seq<char>) -> Option<
    (Seq<char>, Seq<char>, Seq<char>, Seq<char>),
> {
    let i0 = skip_spaces(s, 0);
    let e1 = ident_end(s, i0);
    if e1 == i0 || !(e1 < s.len() && s[e1] == '.') {
        Option::None
    } else {
        let e2 = ident_end(s, e1 + 1);
        if e2 == e1 + 1 {
            Option::None
        } else {
            let i3 = skip_spaces(s, e2);
            if !(i3 + 1 < s.len() && s[i3] == '-' && s[i3 + 1] == '>') {
                Option::None
            } else {
                let i4 = skip_spaces(s, i3 + 2);
                let e5 = ident_end(s, i4);
                if e5 == i4 || !(e5 < s.len() && s[e5] == '.') {
                    Option::None
                } else {
                    let e6 = ident_end(s, e5 + 1);
                    if e6 == e5 + 1 || skip_spaces(s, e6) != s.len() {
                        Option::None
                    } else {
                        Option::Some(
                            (
                                s.subrange(i0, e1),
                                s.subrange(e1 + 1, e2),
                                s.subrange(i4, e5),
                                s.subrange(e5 + 1, e6),
                            ),
                        )
                    }
                }
            }
        }
    }
}

proof fn lemma_skip_spaces_bounds(s: Seq<char>, i: int)
    requires
        0 <= i <= s.len(),
    ensures
        i <= skip_spaces(s, i) <= s.len(),
    decreases s.len() - i,
{
    if i < s.len() && s[i] == ' ' {
        lemma_skip_spaces_bounds(s, i + 1);
    }
}

proof fn lemma_ident_end_bounds(s: Seq<char>, i: int)
    requires
        0 <= i <= s.len(),
    ensures
        i <= ident_end(s, i) <= s.len(),
    decreases s.len() - i,
{
    if i < s.len() && is_word_char(s[i]) {
        lemma_ident_end_bounds(s, i + 1);
    }
}

/// Advance past spaces.
fn scan_spaces(s: &str, n: usize, i: usize) -> (r: usize)
    requires
        n == s@.len(),
        i <= n,
    ensures
        r == skip_spaces(s@, i as int),
        i <= r <= n,
{
    let mut k = i;
    loop
        invariant
            i <= k <= n,
            n == s@.len(),
            skip_spaces(s@, i as int) == skip_spaces(s@, k as int),
        ensures
            i <= k <= n,
            k == skip_spaces(s@, i as int),
        decreases n - k,
    {
        if k >= n {
            proof {
                assert(skip_spaces(s@, k as int) == k as int);
            }
            break ;
        }
        let c = s.get_char(k);
        if c != ' ' {
            proof {
                assert(skip_spaces(s@, k as int) == k as int);
            }
            break ;
        }
        k = k + 1;
    }
    k
}

fn word_char(c: char) -> (r: bool)
    ensures
        r == is_word_char(c),
{
    let v = c as u32;
    (v >= 97 && v <= 122) || (v >= 65 && v <= 90) || (v >= 48 && v <= 57) || c == '_'
}

/// Advance past word characters.
fn scan_ident(s: &str, n: usize, i: usize) -> (r: usize)
    requires
        n == s@.len(),
        i <= n,
    ensures
        r == ident_end(s@, i as int),
        i <= r <= n,
{
    let mut k = i;
    loop
        invariant
            i <= k <= n,
            n == s@.len(),
            ident_end(s@, i as int) == ident_end(s@, k as int),
        ensures
            i <= k <= n,
            k == ident_end(s@, i as int),
        decreases n - k,
    {
        if k >= n {
            proof {
                assert(ident_end(s@, k as int) == k as int);
            }
            break ;
        }
        let c = s.get_char(k);
        if !word_char(c) {
            proof {
                assert(ident_end(s@, k as int) == k as int);
            }
            break ;
        }
        k = k + 1;
    }
    k
}

/// Parse `a.out -> b.in` into its four words; `None` when the text does
/// not fit the grammar.
pub fn parse_link(spec: &str) -> (r: Option<LinkSpec>)
    ensures
        match r {
            Option::Some(ls) => link_parse_spec(spec@) == Option::Some(ls@),
            Option::None => link_parse_spec(spec@) is None,
        },
{
    let n = spec.unicode_len();
    proof {
        lemma_skip_spaces_bounds(spec@, 0);
    }
    let i0 = scan_spaces(spec, n, 0);
    let e1 = scan_ident(spec, n, i0);
    if e1 == i0 || !(e1 < n && spec.get_char(e1) == '.') {
        return None;
    }
    let e2 = scan_ident(spec, n, e1 + 1);
    if e2 == e1 + 1 {
        return None;
    }
    let i3 = scan_spaces(spec, n, e2);
    if !(n - i3 > 1 && spec.get_char(i3) == '-' && spec.get_char(i3 + 1) == '>') {
        return None;
    }
    let i4 = scan_spaces(spec, n, i3 + 2);
    let e5 = scan_ident(spec, n, i4);
    if e5 == i4 || !(e5 < n && spec.get_char(e5) == '.') {
        return None;
    }
    let e6 = scan_ident(spec, n, e5 + 1);
    if e6 == e5 + 1 || scan_spaces(spec, n, e6) != n {
        return None;
    }
    let ls = LinkSpec {
        from: spec.substring_char(i0, e1).to_owned(),
        output: spec.substring_char(e1 + 1, e2).to_owned(),
        to: spec.substring_char(i4, e5).to_owned(),
        input: spec.substring_char(e5 + 1, e6).to_owned(),
    };
    Some(ls)
}

/// The canonical text of a link spec: one space either side of the arrow.
pub open spec fn link_canonical(v: (Seq<char>, Seq<char>, Seq<char>, Seq<char>)) -> Seq<char> {
    v.0 + seq!['.'] + v.1 + seq![' ', '-', '>', ' '] + v.2 + seq!['.'] + v.3
}

/// Render a link spec in its canonical form.
pub fn format_link(ls: &LinkSpec) -> (r: String)
    ensures
        r@ == link_canonical(ls@),
{
    let mut s = String::new();
    s.append(ls.from.as_str());
    push_char(&mut s, '.');
    s.append(ls.output.as_str());
    push_char(&mut s, ' ');
    push_char(&mut s, '-');
    push_char(&mut s, '>');
    push_char(&mut s, ' ');
    s.append(ls.to.as_str());
    push_char(&mut s, '.');
    s.append(ls.input.as_str());
    proof {
        assert(s@ =~= link_canonical(ls@));
    }
    s
}

/// Whether the configuration holds a link with the given parts.
pub open spec fn has_link(c: &Config, v: (Seq<char>, Seq<char>, Seq<char>, Seq<char>)) -> bool {
    exists|i: int| 0 <= i < c.links.len() && (#[trigger] c.links@[i])@ == v
}

/// Whether the configuration maps `name` to a config of this identity.
pub open spec fn has_app_conf(c: &Config, name: Seq<char>, conf: AppConfig) -> bool {
    exists|i: int|
        0 <= i < c.apps.len() && (#[trigger] c.apps@[i]).0@ == name && crate::engine::identity_eq(
            &c.apps@[i].1,
            &conf,
        )
}

/// An engine configuration: named app configs and link specs. The same
/// name or link appears only once; a later `app` call replaces the
/// earlier config of that name.
pub struct Config {
    pub apps: Vec<(String, AppConfig)>,
    pub links: Vec<LinkSpec>,
}

impl Config {
    /// The names in `apps` are unique, every app config is realizable,
    /// and the links are distinct.
    pub open spec fn wf(&self) -> bool {
        &&& (forall|i: int, j: int|
            0 <= i < j < self.apps.len() ==> (#[trigger] self.apps@[i]).0@ != (
            #[trigger] self.apps@[j]).0@)
        &&& (forall|i: int| 0 <= i < self.apps.len() ==> (#[trigger] self.apps@[i]).1.valid())
        &&& (forall|i: int, j: int|
            0 <= i < j < self.links.len() ==> (#[trigger] self.links@[i])@ != (
            #[trigger] self.links@[j])@)
    }
}

/// Create a new empty configuration.
pub fn new() -> (c: Config)
    ensures
        c.wf(),
        c.apps.len() == 0,
        c.links.len() == 0,
{
    Config { apps: Vec::new(), links: Vec::new() }
}

/// Add an app to the configuration under `name`, replacing any earlier
/// config of that name.
pub fn app(config: &mut Config, name: &str, conf: AppConfig)
    requires
        old(config).wf(),
        conf.valid(),
    ensures
        final(config).wf(),
        final(config).links@ == old(config).links@,
        // The name maps to the new config; other names are untouched.
        exists|i: int|
            {
                &&& 0 <= i < final(config).apps.len()
                &&& (#[trigger] final(config).apps@[i]).0@ == name@
                &&& final(config).apps@[i].1 == conf
                &&& (forall|j: int|
                    0 <= j < old(config).apps.len() && j != i ==> final(config).apps@[j]
                        == old(config).apps@[j])
                &&& (final(config).apps.len() == old(config).apps.len()
                    || (final(config).apps.len() == old(config).apps.len() + 1
                    && i == old(config).apps.len()))
            },
        // Entries under other names survive unchanged.
        forall|k: int|
            0 <= k < old(config).apps.len() && (#[trigger] old(config).apps@[k]).0@ != name@
                ==> exists|k2: int|
                0 <= k2 < final(config).apps.len() && #[trigger] final(config).apps@[k2] == old(
                    config,
                ).apps@[k],
        forall|v: (Seq<char>, Seq<char>, Seq<char>, Seq<char>)|
            #[trigger] has_link(old(config), v) ==> has_link(final(config), v),
{
    let named = name.to_owned();
    let mut k: usize = 0;
    while k < config.apps.len()
        invariant
            old(config).wf(),
            conf.valid(),
            config.apps@ == old(config).apps@,
            config.links@ == old(config).links@,
            named@ == name@,
            k <= config.apps.len(),
            n_not_found(config, name@, k as int),
        decreases config.apps.len() - k,
    {
        if config.apps[k].0 == named {
            let ghost oldname = config.apps@[k as int].0@;
            config.apps[k] = (named, conf);
            proof {
                assert((config.apps@[k as int]).0@ == name@);
                assert(config.apps@[k as int].1 == conf);
                assert(oldname == name@);
                assert forall|i: int, j: int|
                    0 <= i < j < config.apps.len() implies (#[trigger] config.apps@[i]).0@ != (
                    #[trigger] config.apps@[j]).0@ by {
                    if i == k as int {
                        assert(config.apps@[j] == old(config).apps@[j]);
                        assert((old(config).apps@[k as int]).0@ != (old(config).apps@[j]).0@);
                        assert((old(config).apps@[k as int]).0@ == name@);
                    } else if j == k as int {
                        assert(config.apps@[i] == old(config).apps@[i]);
                        assert((old(config).apps@[i]).0@ != (old(config).apps@[k as int]).0@);
                        assert((old(config).apps@[k as int]).0@ == name@);
                    } else {
                        assert(config.apps@[i] == old(config).apps@[i]);
                        assert(config.apps@[j] == old(config).apps@[j]);
                        assert((old(config).apps@[i]).0@ != (old(config).apps@[j]).0@);
                    }
                }
                assert forall|i: int| 0 <= i < config.apps.len() implies (
                #[trigger] config.apps@[i]).1.valid() by {
                    if i == k as int {
                        assert(config.apps@[k as int].1 == conf);
                    } else {
                        assert(config.apps@[i] == old(config).apps@[i]);
                        assert((old(config).apps@[i]).1.valid());
                    }
                }
            }
            proof {
                assert forall|kk: int|
                    0 <= kk < old(config).apps.len() && (#[trigger] old(
                        config,
                    ).apps@[kk]).0@ != name@ implies exists|k2: int|
                    0 <= k2 < config.apps.len() && #[trigger] config.apps@[k2] == old(
                        config,
                    ).apps@[kk] by {
                    assert(config.apps@[kk] == old(config).apps@[kk]);
                }
                assert forall|v: (Seq<char>, Seq<char>, Seq<char>, Seq<char>)|
                    #[trigger] has_link(old(config), v) implies has_link(config, v) by {
                    let i = choose|i: int|
                        0 <= i < old(config).links.len() && (#[trigger] old(
                            config,
                        ).links@[i])@ == v;
                    assert((config.links@[i])@ == v);
                }
            }
            return ;
        }
        k = k + 1;
    }
    let ghost e = config.apps@.len() as int;
    config.apps.push((named, conf));
    proof {
        assert((config.apps@[e]).0@ == name@ && config.apps@[e].1 == conf);
        assert forall|i: int, j: int|
            0 <= i < j < config.apps.len() implies (#[trigger] config.apps@[i]).0@ != (
            #[trigger] config.apps@[j]).0@ by {
            if j < e {
                assert(config.apps@[i] == old(config).apps@[i]);
                assert(config.apps@[j] == old(config).apps@[j]);
            } else {
                assert(config.apps@[i] == old(config).apps@[i]);
                assert(config.apps@[j].0@ == name@);
            }
        }
        assert forall|i: int| 0 <= i < config.apps.len() implies (
        #[trigger] config.apps@[i]).1.valid() by {
            if i < e {
                assert(config.apps@[i] == old(config).apps@[i]);
            }
        }
        assert forall|kk: int|
            0 <= kk < old(config).apps.len() && (#[trigger] old(config).apps@[kk]).0@ != name@
            implies exists|k2: int|
            0 <= k2 < config.apps.len() && #[trigger] config.apps@[k2] == old(
                config,
            ).apps@[kk] by {
            assert(config.apps@[kk] == old(config).apps@[kk]);
        }
        assert forall|v: (Seq<char>, Seq<char>, Seq<char>, Seq<char>)|
            #[trigger] has_link(old(config), v) implies has_link(config, v) by {
            let i = choose|i: int|
                0 <= i < old(config).links.len() && (#[trigger] old(config).links@[i])@ == v;
            assert((config.links@[i])@ == v);
        }
    }
}

/// No entry before `k` carries `name`.
pub open spec fn n_not_found(config: &Config, name: Seq<char>, k: int) -> bool {
    forall|j: int| 0 <= j < k ==> (#[trigger] config.apps@[j]).0@ != name
}

/// Add a link to the configuration from its text, canonicalized.
/// The text must fit the link grammar.
pub fn link(config: &mut Config, spec: &str)
    requires
        old(config).wf(),
        link_parse_spec(spec@) is Some,
    ensures
        final(config).wf(),
        final(config).apps@ == old(config).apps@,
        exists|i: int|
            {
                &&& 0 <= i < final(config).links.len()
                &&& (#[trigger] final(config).links@[i])@ == link_parse_spec(spec@)->0
            },
        // Set semantics: the table is unchanged (the link was already
        // there) or grew by exactly the parsed spec.
        final(config).links@ == old(config).links@ || exists|ls: LinkSpec|
            #[trigger] ls@ == link_parse_spec(spec@)->0 && final(config).links@ == old(
                config,
            ).links@.push(ls),
{
    let ls = parse_link(spec).unwrap();
    let ghost lsv = ls@;
    link_parts(config, ls);
    proof {
        if config.links@ != old(config).links@ {
            let ls2 = config.links@.last();
            assert(config.links@ == old(config).links@.push(ls2));
            assert(ls2@ == lsv);
        }
    }
}

/// Add an already-parsed link to the configuration, ignoring duplicates.
pub fn link_parts(config: &mut Config, ls: LinkSpec)
    requires
        old(config).wf(),
    ensures
        final(config).wf(),
        final(config).apps@ == old(config).apps@,
        exists|i: int|
            {
                &&& 0 <= i < final(config).links.len()
                &&& (#[trigger] final(config).links@[i])@ == ls@
            },
        final(config).links@ == old(config).links@ || final(config).links@ == old(
            config,
        ).links@.push(ls),
        has_link(final(config), ls@),
        forall|v: (Seq<char>, Seq<char>, Seq<char>, Seq<char>)|
            #[trigger] has_link(old(config), v) ==> has_link(final(config), v),
        forall|k: int|
            0 <= k < old(config).apps.len() ==> #[trigger] final(config).apps@[k] == old(
                config,
            ).apps@[k],
{
    let mut k: usize = 0;
    while k < config.links.len()
        invariant
            old(config).wf(),
            config.apps@ == old(config).apps@,
            config.links@ == old(config).links@,
            k <= config.links.len(),
            forall|j: int| 0 <= j < k ==> (#[trigger] config.links@[j])@ != ls@,
        decreases config.links.len() - k,
    {
        if config.links[k].same(&ls) {
            proof {
                assert((config.links@[k as int])@ == ls@);
                assert(has_link(config, ls@));
                assert forall|v: (Seq<char>, Seq<char>, Seq<char>, Seq<char>)|
                    #[trigger] has_link(old(config), v) implies has_link(config, v) by {
                    let i = choose|i: int|
                        0 <= i < old(config).links.len() && (#[trigger] old(
                            config,
                        ).links@[i])@ == v;
                    assert((config.links@[i])@ == v);
                }
            }
            return ;
        }
        k = k + 1;
    }
    let ghost e = config.links@.len() as int;
    config.links.push(ls);
    proof {
        assert((config.links@[e])@ == ls@);
        assert(has_link(config, ls@));
        assert forall|v: (Seq<char>, Seq<char>, Seq<char>, Seq<char>)|
            #[trigger] has_link(old(config), v) implies has_link(config, v) by {
            let i = choose|i: int|
                0 <= i < old(config).links.len() && (#[trigger] old(config).links@[i])@ == v;
            assert((config.links@[i])@ == v);
        }
        assert forall|i: int, j: int|
            0 <= i < j < config.links.len() implies (#[trigger] config.links@[i])@ != (
            #[trigger] config.links@[j])@ by {
            if j < e {
                assert(config.links@[i] == old(config).links@[i]);
                assert(config.links@[j] == old(config).links@[j]);
            } else {
                assert(config.links@[i] == old(config).links@[i]);
                assert(config.links@[j]@ == ls@);
            }
        }
    }
}

} // verus!
