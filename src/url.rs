use vstd::prelude::*;
use vstd::std_specs::iter::IteratorSpec;
use vstd::string::*;

verus! {

/// The scheme marker `http://`.
pub open spec fn scheme() -> Seq<char> {
    seq!['h', 't', 't', 'p', ':', '/', '/']
}

/// The port used when the authority names none.
pub open spec fn default_port() -> Seq<char> {
    seq!['8', '0']
}

/// `p` occurs in `s` starting at index `i`.
pub open spec fn occurs_at(s: Seq<char>, p: Seq<char>, i: int) -> bool {
    0 <= i && i + p.len() <= s.len() && s.subrange(i, i + p.len()) == p
}

/// `p` occurs somewhere in `s`.
pub open spec fn contains_seq(s: Seq<char>, p: Seq<char>) -> bool {
    exists|i: int| occurs_at(s, p, i)
}

/// `s` with the leading scheme marker, if it starts with one, removed once.
pub open spec fn trim_scheme(s: Seq<char>) -> Seq<char> {
    if occurs_at(s, scheme(), 0) {
        s.skip(7)
    } else {
        s
    }
}

/// Index of the first `c` in `s`, or `s.len()` when `s` holds none.
pub open spec fn first_of(s: Seq<char>, c: char) -> int
    decreases s.len(),
{
    if s.len() == 0 {
        0
    } else if s[0] == c {
        0
    } else {
        1 + first_of(s.drop_first(), c)
    }
}

/// `s` holds the character `c`.
pub open spec fn has_char(s: Seq<char>, c: char) -> bool {
    first_of(s, c) < s.len()
}

/// The part of `s` before the first `c` (all of `s` when there is none).
pub open spec fn before(s: Seq<char>, c: char) -> Seq<char> {
    s.take(first_of(s, c))
}

/// The part of `s` after the first `c` (empty when there is none).
pub open spec fn after(s: Seq<char>, c: char) -> Seq<char> {
    if has_char(s, c) {
        s.skip(first_of(s, c) + 1)
    } else {
        Seq::empty()
    }
}

/// The authority (`host[:port]`) of an address whose scheme is already removed.
pub open spec fn authority_of(t: Seq<char>) -> Seq<char> {
    before(t, '/')
}

/// The host of an address whose scheme is already removed.
pub open spec fn host_of(t: Seq<char>) -> Seq<char> {
    before(authority_of(t), ':')
}

/// The port of an address whose scheme is already removed.
pub open spec fn port_of(t: Seq<char>) -> Seq<char> {
    if has_char(authority_of(t), ':') {
        after(authority_of(t), ':')
    } else {
        default_port()
    }
}

/// The path of an address whose scheme is already removed.
pub open spec fn path_of(t: Seq<char>) -> Seq<char> {
    before(after(t, '/'), '?')
}

/// The search part of an address whose scheme is already removed.
pub open spec fn search_of(t: Seq<char>) -> Seq<char> {
    after(after(t, '/'), '?')
}

pub proof fn lemma_first_of(s: Seq<char>, c: char)
    ensures
        0 <= first_of(s, c) <= s.len(),
        forall|j: int| 0 <= j < first_of(s, c) ==> s[j] != c,
        first_of(s, c) < s.len() ==> s[first_of(s, c)] == c,
    decreases s.len(),
{
    if s.len() > 0 && s[0] != c {
        lemma_first_of(s.drop_first(), c);
        assert forall|j: int| 0 <= j < first_of(s, c) implies s[j] != c by {
            if j > 0 {
                assert(s[j] == s.drop_first()[j - 1]);
            }
        }
    }
}

/// The first `c` in `s` stands at `i` when none comes before `i` and `s[i]` is `c`
/// (or `i` is the end of `s`).
pub proof fn lemma_first_of_at(s: Seq<char>, c: char, i: int)
    requires
        0 <= i <= s.len(),
        forall|j: int| 0 <= j < i ==> s[j] != c,
        i < s.len() ==> s[i] == c,
    ensures
        first_of(s, c) == i,
{
    lemma_first_of(s, c);
}

/// Looking for `c` in the first `k` characters of `s` finds the first `c` of `s`
/// if it stands before `k`, and the end otherwise.
pub proof fn lemma_first_of_take(s: Seq<char>, c: char, k: int)
    requires
        0 <= k <= s.len(),
    ensures
        first_of(s.take(k), c) == if first_of(s, c) < k {
            first_of(s, c)
        } else {
            k
        },
{
    lemma_first_of(s, c);
    let i = if first_of(s, c) < k {
        first_of(s, c)
    } else {
        k
    };
    lemma_first_of_at(s.take(k), c, i);
}

/// An address, and the parts of it that `parse` takes out.
#[derive(Debug, Clone, PartialEq)]
pub struct Url {
    pub url: String,
    pub host: String,
    pub port: String,
    pub path: String,
    pub searchpart: String,
}

/// The characters of each field of a `Url`.
pub ghost struct UrlView {
    pub url: Seq<char>,
    pub host: Seq<char>,
    pub port: Seq<char>,
    pub path: Seq<char>,
    pub searchpart: Seq<char>,
}

impl View for Url {
    type V = UrlView;

    open spec fn view(&self) -> UrlView {
        UrlView {
            url: self.url@,
            host: self.host@,
            port: self.port@,
            path: self.path@,
            searchpart: self.searchpart@,
        }
    }
}

/// The message of the error for an address without the scheme marker.
pub open spec fn unsupported_scheme_message() -> Seq<char> {
    "Only HTTP scheme is supported."@
}

/// What parsing `raw` gives: `None` when the scheme marker occurs nowhere in it,
/// else its parts, taken from `raw` with the leading scheme marker removed once.
pub open spec fn parse_spec(raw: Seq<char>) -> Option<UrlView> {
    if contains_seq(raw, scheme()) {
        let t = trim_scheme(raw);
        Some(
            UrlView {
                url: raw,
                host: host_of(t),
                port: port_of(t),
                path: path_of(t),
                searchpart: search_of(t),
            },
        )
    } else {
        None
    }
}

impl Url {
    /// An unparsed address: `url` kept as given, every part empty.
    pub fn new(url: String) -> (r: Url)
        ensures
            r@.url == url@,
            r@.host == Seq::<char>::empty(),
            r@.port == Seq::<char>::empty(),
            r@.path == Seq::<char>::empty(),
            r@.searchpart == Seq::<char>::empty(),
    {
        Url {
            url,
            host: String::new(),
            port: String::new(),
            path: String::new(),
            searchpart: String::new(),
        }
    }

    /// The host.
    pub fn host(&self) -> (r: String)
        ensures
            r@ == self.host@,
    {
        self.host.clone()
    }

    /// The port.
    pub fn port(&self) -> (r: String)
        ensures
            r@ == self.port@,
    {
        self.port.clone()
    }

    /// The path, without its leading `/`.
    pub fn path(&self) -> (r: String)
        ensures
            r@ == self.path@,
    {
        self.path.clone()
    }

    /// The search part, without its leading `?`.
    pub fn searchpart(&self) -> (r: String)
        ensures
            r@ == self.searchpart@,
    {
        self.searchpart.clone()
    }

    /// Fills in host, port, path and search part from the address. Fails, and
    /// leaves `self` as it was, when the scheme marker occurs nowhere in it.
    pub fn parse(&mut self) -> (r: Result<Url, String>)
        ensures
            match r {
                Ok(u) => parse_spec(old(self).url@) == Some(u@) && final(self)@ == u@,
                Err(e) => parse_spec(old(self).url@) is None && e@
                    == unsupported_scheme_message() && final(self)@ == old(self)@,
            },
    {
        if !self.is_http() {
            return Err(String::from_str("Only HTTP scheme is supported."));
        }
        self.host = self.extract_host();
        self.port = self.extract_port();
        self.path = self.extract_path();
        self.searchpart = self.extract_searchpart();
        Ok(
            Url {
                url: self.url.clone(),
                host: self.host.clone(),
                port: self.port.clone(),
                path: self.path.clone(),
                searchpart: self.searchpart.clone(),
            },
        )
    }

    /// Whether the scheme marker occurs anywhere in the address.
    fn is_http(&self) -> (r: bool)
        ensures
            r == contains_seq(self.url@, scheme()),
    {
        let cs = chars_of(self.url.as_str());
        has_scheme(&cs)
    }

    /// The host: the authority up to its first `:`.
    fn extract_host(&self) -> (r: String)
        ensures
            r@ == host_of(trim_scheme(self.url@)),
    {
        let cs = chars_of(self.url.as_str());
        let start = scheme_end(&cs);
        let slash = find_from(&cs, start, '/');
        let colon = find_from(&cs, start, ':');
        let end = if colon < slash {
            colon
        } else {
            slash
        };
        proof {
            let t = cs@.skip(start as int);
            lemma_first_of(t, '/');
            lemma_first_of(t, ':');
            lemma_first_of_take(t, ':', first_of(t, '/'));
            assert(host_of(t) =~= cs@.subrange(start as int, end as int));
        }
        substring(self.url.as_str(), start, end)
    }

    /// The port: the authority after its first `:`, or the default port.
    fn extract_port(&self) -> (r: String)
        ensures
            r@ == port_of(trim_scheme(self.url@)),
    {
        let cs = chars_of(self.url.as_str());
        let start = scheme_end(&cs);
        let slash = find_from(&cs, start, '/');
        let colon = find_from(&cs, start, ':');
        proof {
            let t = cs@.skip(start as int);
            lemma_first_of(t, '/');
            lemma_first_of(t, ':');
            lemma_first_of_take(t, ':', first_of(t, '/'));
        }
        if colon < slash {
            assert(port_of(cs@.skip(start as int)) =~= cs@.subrange(colon + 1, slash as int));
            substring(self.url.as_str(), colon + 1, slash)
        } else {
            proof {
                reveal_strlit("80");
            }
            assert("80"@ =~= default_port());
            String::from_str("80")
        }
    }

    /// The path: what follows the first `/`, up to the first `?` after it.
    fn extract_path(&self) -> (r: String)
        ensures
            r@ == path_of(trim_scheme(self.url@)),
    {
        let cs = chars_of(self.url.as_str());
        let start = scheme_end(&cs);
        let slash = find_from(&cs, start, '/');
        proof {
            lemma_first_of(cs@.skip(start as int), '/');
        }
        if slash >= cs.len() {
            assert(path_of(cs@.skip(start as int)) =~= Seq::<char>::empty());
            return String::new();
        }
        let question = find_from(&cs, slash + 1, '?');
        proof {
            let t = cs@.skip(start as int);
            assert(after(t, '/') =~= cs@.skip(slash + 1));
            lemma_first_of(cs@.skip(slash + 1), '?');
            assert(path_of(t) =~= cs@.subrange(slash + 1, question as int));
        }
        substring(self.url.as_str(), slash + 1, question)
    }

    /// The search part: what follows the first `?` after the first `/`.
    fn extract_searchpart(&self) -> (r: String)
        ensures
            r@ == search_of(trim_scheme(self.url@)),
    {
        let cs = chars_of(self.url.as_str());
        let start = scheme_end(&cs);
        let slash = find_from(&cs, start, '/');
        proof {
            lemma_first_of(cs@.skip(start as int), '/');
        }
        if slash >= cs.len() {
            assert(search_of(cs@.skip(start as int)) =~= Seq::<char>::empty());
            return String::new();
        }
        let question = find_from(&cs, slash + 1, '?');
        proof {
            let t = cs@.skip(start as int);
            assert(after(t, '/') =~= cs@.skip(slash + 1));
            lemma_first_of(cs@.skip(slash + 1), '?');
        }
        if question >= cs.len() {
            assert(search_of(cs@.skip(start as int)) =~= Seq::<char>::empty());
            return String::new();
        }
        assert(search_of(cs@.skip(start as int)) =~= cs@.subrange(question + 1, cs@.len() as int));
        substring(self.url.as_str(), question + 1, cs.len())
    }
}

/// `host`, then `:port` unless the port is the default one, then `/` and `path`,
/// then `?searchpart` unless the search part is empty.
pub open spec fn compose(u: UrlView) -> Seq<char> {
    let port_part = if u.port == default_port() {
        Seq::empty()
    } else {
        seq![':'] + u.port
    };
    let search_part = if u.searchpart.len() == 0 {
        Seq::empty()
    } else {
        seq!['?'] + u.searchpart
    };
    u.host + port_part + seq!['/'] + u.path + search_part
}

/// Looking for `c` past a prefix `a` that holds no `c` finds it where `b` has it.
pub proof fn lemma_first_of_append(a: Seq<char>, b: Seq<char>, c: char)
    requires
        forall|j: int| 0 <= j < a.len() ==> a[j] != c,
    ensures
        first_of(a + b, c) == a.len() + first_of(b, c),
{
    lemma_first_of(b, c);
    let s = a + b;
    let i = a.len() + first_of(b, c);
    assert forall|j: int| 0 <= j < i implies s[j] != c by {
        if j >= a.len() {
            assert(s[j] == b[j - a.len()]);
        }
    }
    if i < s.len() {
        assert(s[i] == b[first_of(b, c)]);
    }
    lemma_first_of_at(s, c, i);
}

/// An address in which the scheme marker occurs nowhere is rejected.
pub proof fn lemma_rejects_without_scheme(raw: Seq<char>)
    requires
        !contains_seq(raw, scheme()),
    ensures
        parse_spec(raw) is None,
{
}

/// An address that starts with the scheme marker is accepted.
pub proof fn lemma_accepts_leading_scheme(raw: Seq<char>)
    requires
        occurs_at(raw, scheme(), 0),
    ensures
        parse_spec(raw) is Some,
{
    assert(occurs_at(raw, scheme(), 0));
}

/// Parsing an address a second time gives what the first parse gave: the result
/// keeps the address, and the parts depend on the address alone.
pub proof fn lemma_parse_idempotent(raw: Seq<char>)
    ensures
        parse_spec(raw) matches Some(u) ==> u.url == raw && parse_spec(u.url) == parse_spec(raw),
{
}

/// Putting the parts back together (`compose`) gives an address, without its
/// scheme, that splits into the same host, port, path and search part.
pub proof fn lemma_compose_round_trip(raw: Seq<char>)
    requires
        parse_spec(raw) is Some,
    ensures
        ({
            let u = parse_spec(raw)->Some_0;
            let r = compose(u);
            host_of(r) == u.host && port_of(r) == u.port && path_of(r) == u.path && search_of(r)
                == u.searchpart
        }),
{
    let u = parse_spec(raw)->Some_0;
    let t = trim_scheme(raw);
    let a = authority_of(t);
    lemma_first_of(t, '/');
    lemma_first_of(a, ':');
    lemma_first_of(after(t, '/'), '?');
    let port_part = if u.port == default_port() {
        Seq::<char>::empty()
    } else {
        seq![':'] + u.port
    };
    let search_part = if u.searchpart.len() == 0 {
        Seq::<char>::empty()
    } else {
        seq!['?'] + u.searchpart
    };
    let aa = u.host + port_part;
    let b = u.path + search_part;
    let r = compose(u);
    assert(r =~= aa + (seq!['/'] + b));
    // The authority holds no '/', nor does any part of it.
    assert forall|j: int| 0 <= j < aa.len() implies aa[j] != '/' by {
        if j < u.host.len() {
            assert(aa[j] == a[j]);
        } else if j > u.host.len() {
            assert(aa[j] == a[first_of(a, ':') + 1 + (j - u.host.len() - 1)]);
        }
    }
    lemma_first_of_append(aa, seq!['/'] + b, '/');
    assert(authority_of(r) =~= aa);
    assert(after(r, '/') =~= b);
    // The host holds no ':'.
    lemma_first_of_append(u.host, port_part, ':');
    assert(host_of(r) =~= u.host);
    if u.port == default_port() {
        assert(aa =~= u.host);
    } else {
        assert(port_part[0] == ':');
        assert(after(aa, ':') =~= u.port);
    }
    // The path holds no '?'.
    lemma_first_of_append(u.path, search_part, '?');
    assert(path_of(r) =~= u.path);
    if u.searchpart.len() == 0 {
        assert(b =~= u.path);
    } else {
        assert(search_part[0] == '?');
        assert(after(b, '?') =~= u.searchpart);
    }
}

/// Putting the parts back together (`compose`) gives back the address without its
/// scheme, character for character, unless the address has no `/` after the
/// authority, names the default port explicitly, or ends its path with an empty `?`.
pub proof fn lemma_compose_exact(raw: Seq<char>)
    requires
        parse_spec(raw) is Some,
        has_char(trim_scheme(raw), '/'),
        has_char(authority_of(trim_scheme(raw)), ':') ==> port_of(trim_scheme(raw))
            != default_port(),
        has_char(after(trim_scheme(raw), '/'), '?') ==> search_of(trim_scheme(raw)).len() > 0,
    ensures
        compose(parse_spec(raw)->Some_0) == trim_scheme(raw),
{
    let u = parse_spec(raw)->Some_0;
    let t = trim_scheme(raw);
    let a = authority_of(t);
    let b = after(t, '/');
    lemma_first_of(t, '/');
    lemma_first_of(a, ':');
    lemma_first_of(b, '?');
    assert(t =~= a + seq!['/'] + b);
    if has_char(a, ':') {
        assert(a =~= u.host + (seq![':'] + u.port));
    } else {
        assert(a =~= u.host);
    }
    if has_char(b, '?') {
        assert(b =~= u.path + (seq!['?'] + u.searchpart));
    } else {
        assert(b =~= u.path);
    }
    assert(compose(u) =~= t);
}

/// An authority without `:` gives the default port.
pub proof fn lemma_default_port(raw: Seq<char>)
    requires
        parse_spec(raw) is Some,
        forall|j: int|
            0 <= j < authority_of(trim_scheme(raw)).len() ==> authority_of(trim_scheme(raw))[j]
                != ':',
    ensures
        parse_spec(raw)->Some_0.port == default_port(),
{
    let a = authority_of(trim_scheme(raw));
    lemma_first_of_at(a, ':', a.len() as int);
}

/// The characters of `s`, in order.
fn chars_of(s: &str) -> (r: Vec<char>)
    ensures
        r@ == s@,
{
    let mut r: Vec<char> = Vec::new();
    for c in it: s.chars()
        invariant
            r@ == it.seq().take(it.index() as int),
    {
        r.push(c);
    }
    r
}

/// Index of the first `c` in `cs` at or after `from`, or `cs.len()` when there is none.
fn find_from(cs: &Vec<char>, from: usize, c: char) -> (r: usize)
    requires
        from <= cs@.len(),
    ensures
        r == from + first_of(cs@.skip(from as int), c),
{
    let mut i: usize = from;
    while i < cs.len() && cs[i] != c
        invariant
            from <= i <= cs@.len(),
            forall|j: int| from <= j < i ==> cs@[j] != c,
        decreases cs@.len() - i,
    {
        i = i + 1;
    }
    proof {
        lemma_first_of_at(cs@.skip(from as int), c, i - from);
    }
    i
}

/// Whether the scheme marker occurs in `cs` starting at `i`.
fn scheme_at(cs: &Vec<char>, i: usize) -> (r: bool)
    ensures
        r == occurs_at(cs@, scheme(), i as int),
{
    let marker: Vec<char> = vec!['h', 't', 't', 'p', ':', '/', '/'];
    assert(marker@ =~= scheme());
    if i > cs.len() || cs.len() - i < marker.len() {
        return false;
    }
    let n: usize = cs.len();
    let mut k: usize = 0;
    while k < marker.len()
        invariant
            n == cs@.len(),
            marker@ == scheme(),
            marker@.len() == 7,
            i + marker@.len() <= cs@.len(),
            k <= marker@.len(),
            forall|j: int| 0 <= j < k ==> cs@[i + j] == marker@[j],
        decreases marker@.len() - k,
    {
        if cs[i + k] != marker[k] {
            assert(cs@.subrange(i as int, i + 7)[k as int] != scheme()[k as int]);
            return false;
        }
        k = k + 1;
    }
    assert(cs@.subrange(i as int, i + 7) =~= scheme());
    true
}

/// Whether the scheme marker occurs anywhere in `cs`.
fn has_scheme(cs: &Vec<char>) -> (r: bool)
    ensures
        r == contains_seq(cs@, scheme()),
{
    let mut i: usize = 0;
    while i < cs.len()
        invariant
            i <= cs@.len(),
            forall|j: int| 0 <= j < i ==> !occurs_at(cs@, scheme(), j),
        decreases cs@.len() - i,
    {
        if scheme_at(cs, i) {
            return true;
        }
        i = i + 1;
    }
    assert forall|j: int| !occurs_at(cs@, scheme(), j) by {
        if j >= i {
            assert(scheme().len() == 7);
        }
    }
    false
}

/// Index at which `cs` goes on once its leading scheme marker, if any, is removed.
fn scheme_end(cs: &Vec<char>) -> (r: usize)
    ensures
        r <= cs@.len(),
        cs@.skip(r as int) == trim_scheme(cs@),
{
    if scheme_at(cs, 0) {
        assert(scheme().len() == 7);
        7
    } else {
        assert(cs@.skip(0) =~= cs@);
        0
    }
}

/// The characters of `s` from index `from` up to index `to`, as a new string.
fn substring(s: &str, from: usize, to: usize) -> (r: String)
    requires
        from <= to <= s@.len(),
    ensures
        r@ == s@.subrange(from as int, to as int),
{
    String::from_str(s.substring_char(from, to))
}

} // verus!
