//! Translation of a marketplace search-page link into a query-API request.
//!
//! The query string is read as a list of `key=value` parameters separated by
//! `&`; the parameters are remapped one by one, and the price bounds are
//! gathered into one range parameter at the end.
use vstd::prelude::*;
use crate::text::{
    chars_of, decimal, eq_str, int_of, parse_i32, push_chars, push_decimal, push_str,
    slice_chars, string_of,
};

verus! {

/// Why a search link could not be translated.
#[derive(Clone, Copy, Debug, PartialEq, Eq, Structural)]
pub enum TranslationError {
    /// The link has no `?`, so it carries no search parameters.
    MissingQuery,
    /// A region parameter that the translation reads is not an integer.
    InvalidNumber,
}

/// One query parameter: its key, and its value when the parameter has a `=`.
pub type ParamView = (Seq<char>, Option<Seq<char>>);

/// One query parameter as read from a link: its key, and its value when the
/// parameter has a `=`.
pub struct QueryParam {
    pub key: Vec<char>,
    pub value: Option<Vec<char>>,
}

impl View for QueryParam {
    type V = ParamView;

    open spec fn view(&self) -> ParamView {
        (
            self.key@,
            match self.value {
                Some(v) => Some(v@),
                None => None,
            },
        )
    }
}

/// The parameters' keys and values.
pub open spec fn params_view(ps: Seq<QueryParam>) -> Seq<ParamView> {
    ps.map_values(|p: QueryParam| p@)
}

/// The base of every query-API request.
pub open spec fn api_base() -> Seq<char> {
    "https://api.tori.fi/api/v1.2/public/ads"@
}

/// Position of the first `c` in `s`.
pub open spec fn first_index(s: Seq<char>, c: char) -> Option<int>
    decreases s.len(),
{
    if s.len() == 0 {
        None
    } else {
        match first_index(s.drop_last(), c) {
            Some(i) => Some(i),
            None => if s.last() == c { Some(s.len() - 1) } else { None },
        }
    }
}

/// The pieces of `s` between the `&` separators (one piece when there is none).
pub open spec fn split_amp(s: Seq<char>) -> Seq<Seq<char>>
    decreases s.len(),
{
    if s.len() == 0 {
        seq![Seq::empty()]
    } else {
        let r = split_amp(s.drop_last());
        if s.last() == '&' {
            r.push(Seq::empty())
        } else {
            r.update(r.len() - 1, r.last().push(s.last()))
        }
    }
}

/// A parameter read from one piece: the key ends at the first `=`.
pub open spec fn param_of(seg: Seq<char>) -> ParamView {
    match first_index(seg, '=') {
        Some(i) => (seg.subrange(0, i), Some(seg.subrange(i + 1, seg.len() as int))),
        None => (seg, None),
    }
}

/// The parameters of a query string, in order.
pub open spec fn params_of(q: Seq<char>) -> Seq<ParamView> {
    split_amp(q).map_values(|seg: Seq<char>| param_of(seg))
}

pub open spec fn value_or_empty(v: Option<Seq<char>>) -> Seq<char> {
    match v {
        Some(x) => x,
        None => Seq::empty(),
    }
}

/// The value of the first parameter with key `k` (empty when it has no `=`).
pub open spec fn lookup(ps: Seq<ParamView>, k: Seq<char>) -> Option<Seq<char>>
    decreases ps.len(),
{
    if ps.len() == 0 {
        None
    } else {
        match lookup(ps.drop_last(), k) {
            Some(v) => Some(v),
            None => if ps.last().0 == k { Some(value_or_empty(ps.last().1)) } else { None },
        }
    }
}

/// `s` with every `_s` removed, read from left to right.
pub open spec fn strip_exact(s: Seq<char>) -> Seq<char>
    decreases s.len(),
{
    if s.len() == 0 {
        s
    } else if s.len() >= 2 && s[0] == '_' && s[1] == 's' {
        strip_exact(s.subrange(2, s.len() as int))
    } else {
        seq![s[0]] + strip_exact(s.drop_first())
    }
}

pub open spec fn strip_value(v: Option<Seq<char>>) -> Option<Seq<char>> {
    match v {
        Some(x) => Some(strip_exact(x)),
        None => None,
    }
}

/// The region value that replaces the `w` parameter, if any.
///
/// A `w` of 100 or more gives `w - 100`; a smaller one gives the `ca` value,
/// when there is one; without `w` nothing is replaced.
pub open spec fn region_value(ps: Seq<ParamView>) -> Result<Option<Seq<char>>, TranslationError> {
    match lookup(ps, "w"@) {
        None => Ok(None),
        Some(wv) => match int_of(wv) {
            None => Err(TranslationError::InvalidNumber),
            Some(w) => if w >= 100 {
                Ok(Some(decimal((w - 100) as nat)))
            } else {
                match lookup(ps, "ca"@) {
                    None => Ok(None),
                    Some(cv) => if int_of(cv) is Some {
                        Ok(Some(cv))
                    } else {
                        Err(TranslationError::InvalidNumber)
                    },
                }
            },
        },
    }
}

/// What one parameter becomes in the request; `None` drops it.
pub open spec fn emit(p: ParamView, no_w: bool, region: Option<Seq<char>>) -> Option<ParamView> {
    let k = p.0;
    if k == "ps"@ || k == "pe"@ {
        None
    } else if k == "cg"@ {
        if p.1 == Some("0"@) {
            None
        } else {
            Some(("category"@, strip_value(p.1)))
        }
    } else if k == "w"@ {
        match region {
            Some(r) => Some(("region"@, Some(r))),
            None => Some((k, strip_value(p.1))),
        }
    } else if k == "ca"@ {
        if no_w {
            Some(("region"@, strip_value(p.1)))
        } else {
            Some((k, strip_value(p.1)))
        }
    } else if k == "st"@ {
        Some(("ad_type"@, strip_value(p.1)))
    } else if k == "m"@ {
        Some(("area"@, strip_value(p.1)))
    } else {
        Some((k, strip_value(p.1)))
    }
}

/// The request's parameters, in the order of the search link's.
pub open spec fn emit_all(ps: Seq<ParamView>, no_w: bool, region: Option<Seq<char>>) -> Seq<
    ParamView,
>
    decreases ps.len(),
{
    if ps.len() == 0 {
        Seq::empty()
    } else {
        let r = emit_all(ps.drop_last(), no_w, region);
        match emit(ps.last(), no_w, region) {
            Some(p) => r.push(p),
            None => r,
        }
    }
}

pub open spec fn render(p: ParamView) -> Seq<char> {
    p.0 + match p.1 {
        Some(v) => seq!['='] + v,
        None => Seq::empty(),
    }
}

/// The parameters written out, separated by `&`.
pub open spec fn join(ps: Seq<ParamView>) -> Seq<char>
    decreases ps.len(),
{
    if ps.len() == 0 {
        Seq::empty()
    } else if ps.len() == 1 {
        render(ps[0])
    } else {
        join(ps.drop_last()) + seq!['&'] + render(ps.last())
    }
}

/// The price range parameter, present when either bound is.
pub open spec fn price_suffix(floor: Option<Seq<char>>, ceiling: Option<Seq<char>>) -> Seq<char> {
    if floor is None && ceiling is None {
        Seq::empty()
    } else {
        "&suborder="@ + value_or_empty(floor) + seq!['-'] + value_or_empty(ceiling)
    }
}

/// The parameters of the search link `url` (those after its first `?`).
pub open spec fn link_params(url: Seq<char>) -> Seq<ParamView> {
    match first_index(url, '?') {
        Some(i) => params_of(url.subrange(i + 1, url.len() as int)),
        None => Seq::empty(),
    }
}

/// The request's parameters for the search link `url`, before the price range.
pub open spec fn request_params(url: Seq<char>, region: Option<Seq<char>>) -> Seq<ParamView> {
    let ps = link_params(url);
    emit_all(ps, lookup(ps, "w"@) is None, region)
}

/// The query-API request for the search link `url`.
pub open spec fn translate(url: Seq<char>) -> Result<Seq<char>, TranslationError> {
    let ps = link_params(url);
    if first_index(url, '?') is None {
        Err(TranslationError::MissingQuery)
    } else {
        match region_value(ps) {
            Err(e) => Err(e),
            Ok(region) => Ok(
                api_base() + seq!['?'] + join(request_params(url, region)) + price_suffix(
                    lookup(ps, "ps"@),
                    lookup(ps, "pe"@),
                ),
            ),
        }
    }
}


proof fn lemma_split_nonempty(s: Seq<char>)
    ensures
        split_amp(s).len() >= 1,
    decreases s.len(),
{
    if s.len() > 0 {
        lemma_split_nonempty(s.drop_last());
    }
}

proof fn lemma_first_index_prefix(s: Seq<char>, c: char, k: int)
    requires
        0 <= k <= s.len(),
        first_index(s.subrange(0, k), c) is Some,
    ensures
        first_index(s, c) == first_index(s.subrange(0, k), c),
    decreases s.len() - k,
{
    if k == s.len() {
        assert(s.subrange(0, k) =~= s);
    } else {
        assert(s.drop_last().subrange(0, k) =~= s.subrange(0, k));
        lemma_first_index_prefix(s.drop_last(), c, k);
    }
}

proof fn lemma_first_index_bounds(s: Seq<char>, c: char)
    ensures
        first_index(s, c) matches Some(i) ==> 0 <= i < s.len() && s[i] == c,
    decreases s.len(),
{
    if s.len() > 0 {
        lemma_first_index_bounds(s.drop_last(), c);
    }
}

/// Position of the first `c` in `s`.
pub fn find_char(s: &Vec<char>, c: char) -> (r: Option<usize>)
    ensures
        match r {
            Some(i) => first_index(s@, c) == Some(i as int),
            None => first_index(s@, c) is None,
        },
{
    let mut i: usize = 0;
    while i < s.len()
        invariant
            i <= s@.len(),
            first_index(s@.subrange(0, i as int), c) is None,
        decreases s@.len() - i,
    {
        assert(s@.subrange(0, i + 1).drop_last() =~= s@.subrange(0, i as int));
        if s[i] == c {
            proof {
                lemma_first_index_prefix(s@, c, i + 1);
            }
            return Some(i);
        }
        i = i + 1;
    }
    assert(s@.subrange(0, i as int) =~= s@);
    None
}

/// Reads one parameter from the piece `seg`.
pub fn parse_param(seg: &Vec<char>) -> (r: QueryParam)
    ensures
        r@ == param_of(seg@),
{
    proof {
        lemma_first_index_bounds(seg@, '=');
    }
    match find_char(seg, '=') {
        Some(i) => {
            let n = seg.len();
            assert(i < n);
            QueryParam {
            key: slice_chars(seg, 0, i),
            value: Some(slice_chars(seg, i + 1, seg.len())),
        }
        },
        None => QueryParam { key: slice_chars(seg, 0, seg.len()), value: None },
    }
}

/// Reads the parameters of the query string `q`.
pub fn parse_query(q: &Vec<char>) -> (r: Vec<QueryParam>)
    ensures
        params_view(r@) == params_of(q@),
{
    let mut done: Vec<QueryParam> = Vec::new();
    let mut cur: Vec<char> = Vec::new();
    let mut i: usize = 0;
    assert(q@.subrange(0, 0) =~= Seq::<char>::empty());
    while i < q.len()
        invariant
            i <= q@.len(),
            split_amp(q@.subrange(0, i as int)).len() == done@.len() + 1,
            forall|k: int|
                0 <= k < done@.len() ==> (#[trigger] done@[k])@ == param_of(
                    split_amp(q@.subrange(0, i as int))[k],
                ),
            split_amp(q@.subrange(0, i as int))[done@.len() as int] == cur@,
        decreases q@.len() - i,
    {
        let ghost pre = q@.subrange(0, i as int);
        let ghost next = q@.subrange(0, i + 1);
        let ghost r = split_amp(pre);
        proof {
            assert(next.drop_last() =~= pre);
        }
        let c = q[i];
        assert(next.last() == c);
        if c == '&' {
            let p = parse_param(&cur);
            done.push(p);
            cur = Vec::new();
            assert(split_amp(next) == r.push(Seq::empty()));
        } else {
            cur.push(c);
            assert(split_amp(next) == r.update(r.len() - 1, r.last().push(c)));
        }
        i = i + 1;
    }
    assert(q@.subrange(0, q@.len() as int) =~= q@);
    let p = parse_param(&cur);
    done.push(p);
    assert(params_view(done@) =~= params_of(q@));
    done
}


pub open spec fn opt_view(o: Option<Vec<char>>) -> Option<Seq<char>> {
    match o {
        Some(v) => Some(v@),
        None => None,
    }
}

/// The value of the first parameter with key `k`.
pub fn lookup_param(ps: &Vec<QueryParam>, k: &str) -> (r: Option<Vec<char>>)
    ensures
        opt_view(r) == lookup(params_view(ps@), k@),
{
    let ghost all = params_view(ps@);
    let mut res: Option<Vec<char>> = None;
    let mut i: usize = 0;
    while i < ps.len()
        invariant
            i <= ps@.len(),
            all == params_view(ps@),
            opt_view(res) == lookup(all.subrange(0, i as int), k@),
        decreases ps@.len() - i,
    {
        assert(all.subrange(0, i + 1).drop_last() =~= all.subrange(0, i as int));
        if res.is_none() && eq_str(&ps[i].key, k) {
            res = match &ps[i].value {
                Some(v) => Some(slice_chars(v, 0, v.len())),
                None => Some(Vec::new()),
            };
            assert(opt_view(res) =~~= Some(value_or_empty(ps@[i as int]@.1)));
        }
        i = i + 1;
    }
    assert(all.subrange(0, ps@.len() as int) =~= all);
    res
}

/// `v` with every `_s` removed, read from left to right.
pub fn strip_exact_chars(v: &Vec<char>) -> (r: Vec<char>)
    ensures
        r@ == strip_exact(v@),
{
    let n = v.len();
    let mut out: Vec<char> = Vec::new();
    let mut i: usize = 0;
    assert(v@.subrange(0, n as int) =~= v@);
    while i < n
        invariant
            n == v@.len(),
            i <= n,
            out@ + strip_exact(v@.subrange(i as int, n as int)) == strip_exact(v@),
        decreases n - i,
    {
        let ghost rest = v@.subrange(i as int, n as int);
        if i + 1 < n && v[i] == '_' && v[i + 1] == 's' {
            assert(rest.subrange(2, rest.len() as int) =~= v@.subrange(i + 2, n as int));
            i = i + 2;
        } else {
            assert(rest.drop_first() =~= v@.subrange(i + 1, n as int));
            out.push(v[i]);
            assert(out@ + strip_exact(v@.subrange(i + 1, n as int)) =~= strip_exact(v@));
            i = i + 1;
        }
    }
    assert(v@.subrange(n as int, n as int) =~= Seq::<char>::empty());
    assert(out@ + Seq::<char>::empty() =~= out@);
    out
}

fn strip_value_chars(v: &Option<Vec<char>>) -> (r: Option<Vec<char>>)
    ensures
        opt_view(r) == strip_value(opt_view(*v)),
{
    match v {
        Some(x) => Some(strip_exact_chars(x)),
        None => None,
    }
}

/// The region value that replaces the `w` parameter (see `region_value`).
pub fn region_of(ps: &Vec<QueryParam>) -> (r: Result<Option<Vec<char>>, TranslationError>)
    ensures
        match r {
            Ok(o) => region_value(params_view(ps@)) == Ok::<Option<Seq<char>>, TranslationError>(
                opt_view(o),
            ),
            Err(e) => region_value(params_view(ps@)) == Err::<Option<Seq<char>>, TranslationError>(
                e,
            ),
        },
{
    match lookup_param(ps, "w") {
        None => Ok(None),
        Some(wv) => match parse_i32(&wv) {
            None => Err(TranslationError::InvalidNumber),
            Some(w) => {
                if w >= 100 {
                    let mut d: Vec<char> = Vec::new();
                    push_decimal(&mut d, (w - 100) as u64);
                    assert(d@ =~= decimal((w - 100) as nat));
                    Ok(Some(d))
                } else {
                    match lookup_param(ps, "ca") {
                        None => Ok(None),
                        Some(cv) => {
                            if parse_i32(&cv).is_some() {
                                Ok(Some(cv))
                            } else {
                                Err(TranslationError::InvalidNumber)
                            }
                        },
                    }
                }
            },
        },
    }
}

/// What one parameter becomes in the request (see `emit`).
pub fn emit_param(p: &QueryParam, no_w: bool, region: &Option<Vec<char>>) -> (r: Option<QueryParam>)
    ensures
        match r {
            Some(q) => emit(p@, no_w, opt_view(*region)) == Some(q@),
            None => emit(p@, no_w, opt_view(*region)) is None,
        },
{
    if eq_str(&p.key, "ps") || eq_str(&p.key, "pe") {
        None
    } else if eq_str(&p.key, "cg") {
        let zero = match &p.value {
            Some(v) => eq_str(v, "0"),
            None => false,
        };
        if zero {
            None
        } else {
            Some(QueryParam { key: chars_of("category"), value: strip_value_chars(&p.value) })
        }
    } else if eq_str(&p.key, "w") {
        match region {
            Some(r) => Some(
                QueryParam { key: chars_of("region"), value: Some(slice_chars(r, 0, r.len())) },
            ),
            None => Some(
                QueryParam { key: slice_chars(&p.key, 0, p.key.len()), value: strip_value_chars(&p.value) },
            ),
        }
    } else if eq_str(&p.key, "ca") {
        let key = if no_w {
            chars_of("region")
        } else {
            slice_chars(&p.key, 0, p.key.len())
        };
        Some(QueryParam { key, value: strip_value_chars(&p.value) })
    } else if eq_str(&p.key, "st") {
        Some(QueryParam { key: chars_of("ad_type"), value: strip_value_chars(&p.value) })
    } else if eq_str(&p.key, "m") {
        Some(QueryParam { key: chars_of("area"), value: strip_value_chars(&p.value) })
    } else {
        Some(
            QueryParam { key: slice_chars(&p.key, 0, p.key.len()), value: strip_value_chars(&p.value) },
        )
    }
}

/// The request's parameters, in the order of the link's (see `emit_all`).
pub fn emit_params(ps: &Vec<QueryParam>, no_w: bool, region: &Option<Vec<char>>) -> (r: Vec<
    QueryParam,
>)
    ensures
        params_view(r@) == emit_all(params_view(ps@), no_w, opt_view(*region)),
{
    let ghost all = params_view(ps@);
    let mut out: Vec<QueryParam> = Vec::new();
    let mut i: usize = 0;
    while i < ps.len()
        invariant
            i <= ps@.len(),
            all == params_view(ps@),
            params_view(out@) == emit_all(all.subrange(0, i as int), no_w, opt_view(*region)),
        decreases ps@.len() - i,
    {
        assert(all.subrange(0, i + 1).drop_last() =~= all.subrange(0, i as int));
        match emit_param(&ps[i], no_w, region) {
            Some(q) => {
                out.push(q);
                assert(params_view(out@) =~= emit_all(
                    all.subrange(0, i + 1),
                    no_w,
                    opt_view(*region),
                ));
            },
            None => {},
        }
        i = i + 1;
    }
    assert(all.subrange(0, ps@.len() as int) =~= all);
    out
}

/// Appends the parameters, separated by `&`, to `out`.
pub fn push_joined(out: &mut Vec<char>, ps: &Vec<QueryParam>)
    ensures
        final(out)@ == old(out)@ + join(params_view(ps@)),
{
    let ghost all = params_view(ps@);
    let mut i: usize = 0;
    while i < ps.len()
        invariant
            i <= ps@.len(),
            all == params_view(ps@),
            out@ == old(out)@ + join(all.subrange(0, i as int)),
        decreases ps@.len() - i,
    {
        let ghost before = out@;
        assert(all.subrange(0, i + 1).drop_last() =~= all.subrange(0, i as int));
        if i > 0 {
            out.push('&');
        }
        push_chars(out, &ps[i].key);
        match &ps[i].value {
            Some(v) => {
                out.push('=');
                push_chars(out, v);
            },
            None => {},
        }
        assert(out@ =~= old(out)@ + join(all.subrange(0, i + 1)));
        i = i + 1;
    }
    assert(all.subrange(0, ps@.len() as int) =~= all);
}

/// Translates a search-page link into the query-API request for the same search.
///
/// The request is the API base, then `?` and the link's parameters remapped
/// (`cg` to `category`, dropped when it is `0`; `w` and `ca` to `region`;
/// `st` to `ad_type`; `m` to `area`; `_s` taken out of values; `ps` and `pe`
/// removed), then `&suborder=<ps>-<pe>` when either price bound is given.
pub fn vahti_to_api(vahti: &str) -> (r: Result<String, TranslationError>)
    ensures
        match r {
            Ok(s) => translate(vahti@) == Ok::<Seq<char>, TranslationError>(s@),
            Err(e) => translate(vahti@) == Err::<Seq<char>, TranslationError>(e),
        },
{
    let cs = chars_of(vahti);
    let qi = match find_char(&cs, '?') {
        Some(i) => i,
        None => {
            return Err(TranslationError::MissingQuery);
        },
    };
    proof {
        lemma_first_index_bounds(cs@, '?');
    }
    let n = cs.len();
    assert(qi < n);
    let q = slice_chars(&cs, qi + 1, n);
    let ps = parse_query(&q);
    let ghost pv = params_view(ps@);
    assert(link_params(vahti@) == pv);
    let region = match region_of(&ps) {
        Ok(o) => o,
        Err(e) => {
            return Err(e);
        },
    };
    let no_w = lookup_param(&ps, "w").is_none();
    let emitted = emit_params(&ps, no_w, &region);
    let mut out = chars_of("https://api.tori.fi/api/v1.2/public/ads");
    out.push('?');
    push_joined(&mut out, &emitted);
    let floor = lookup_param(&ps, "ps");
    let ceiling = lookup_param(&ps, "pe");
    let ghost body = out@;
    if floor.is_some() || ceiling.is_some() {
        push_str(&mut out, "&suborder=");
        match &floor {
            Some(f) => push_chars(&mut out, f),
            None => {},
        }
        out.push('-');
        match &ceiling {
            Some(c) => push_chars(&mut out, c),
            None => {},
        }
        assert(out@ =~= body + price_suffix(opt_view(floor), opt_view(ceiling)));
    } else {
        assert(out@ =~= body + price_suffix(opt_view(floor), opt_view(ceiling)));
    }
    assert(request_params(vahti@, opt_view(region)) == params_view(emitted@));
    assert(region_value(pv) == Ok::<Option<Seq<char>>, TranslationError>(opt_view(region)));
    assert(out@ =~= api_base() + seq!['?'] + join(params_view(emitted@)) + price_suffix(
        lookup(pv, "ps"@),
        lookup(pv, "pe"@),
    ));
    Ok(string_of(&out))
}


/// The request's parameters for `url`, before the price range (empty when
/// `url` cannot be translated).
pub open spec fn request_params_of(url: Seq<char>) -> Seq<ParamView> {
    match region_value(link_params(url)) {
        Ok(region) => request_params(url, region),
        Err(_) => Seq::empty(),
    }
}

proof fn lemma_keys_differ()
    ensures
        "ps"@ != "pe"@,
        "w"@ != "ps"@ && "w"@ != "pe"@ && "w"@ != "cg"@,
        "w"@ != "category"@ && "w"@ != "region"@ && "w"@ != "ad_type"@ && "w"@ != "area"@,
        "w"@ != "ca"@,
        "region"@ != "ps"@ && "region"@ != "pe"@ && "region"@ != "category"@,
        "category"@ != "ps"@ && "category"@ != "pe"@,
        "ad_type"@ != "ps"@ && "ad_type"@ != "pe"@ && "ad_type"@ != "category"@,
        "area"@ != "ps"@ && "area"@ != "pe"@ && "area"@ != "category"@,
{
    reveal_strlit("ps");
    reveal_strlit("pe");
    reveal_strlit("w");
    reveal_strlit("cg");
    reveal_strlit("region");
    reveal_strlit("category");
    reveal_strlit("ad_type");
    reveal_strlit("area");
    assert("ps"@[1] != "pe"@[1]);
    assert("w"@.len() != "ps"@.len());
    assert("w"@.len() != "pe"@.len());
    assert("w"@.len() != "cg"@.len());
    reveal_strlit("ca");
    assert("w"@.len() != "ca"@.len());
    assert("w"@.len() != "category"@.len());
    assert("w"@.len() != "region"@.len());
    assert("w"@.len() != "ad_type"@.len());
    assert("w"@.len() != "area"@.len());
    assert("region"@.len() != "category"@.len());
    assert("ad_type"@.len() != "category"@.len());
    assert("area"@.len() != "category"@.len());
}

proof fn lemma_lookup_found(ps: Seq<ParamView>, k: Seq<char>)
    ensures
        lookup(ps, k) matches Some(v) ==> exists|i: int|
            0 <= i < ps.len() && (#[trigger] ps[i]).0 == k && value_or_empty(ps[i].1) == v,
    decreases ps.len(),
{
    if ps.len() > 0 {
        lemma_lookup_found(ps.drop_last(), k);
        if let Some(v) = lookup(ps.drop_last(), k) {
            let i = choose|i: int|
                0 <= i < ps.drop_last().len() && (#[trigger] ps.drop_last()[i]).0 == k
                    && value_or_empty(ps.drop_last()[i].1) == v;
            assert(ps[i] == ps.drop_last()[i]);
        } else {
            assert(ps[ps.len() - 1] == ps.last());
        }
    }
}

proof fn lemma_emit_all_contains(ps: Seq<ParamView>, no_w: bool, region: Option<Seq<char>>, i: int)
    requires
        0 <= i < ps.len(),
        emit(ps[i], no_w, region) is Some,
    ensures
        emit_all(ps, no_w, region).contains(emit(ps[i], no_w, region).unwrap()),
    decreases ps.len(),
{
    let r = emit_all(ps.drop_last(), no_w, region);
    if i == ps.len() - 1 {
        assert(ps.last() == ps[i]);
        assert(emit_all(ps, no_w, region).last() == emit(ps[i], no_w, region).unwrap());
    } else {
        assert(ps.drop_last()[i] == ps[i]);
        lemma_emit_all_contains(ps.drop_last(), no_w, region, i);
        let q = emit(ps[i], no_w, region).unwrap();
        let m = choose|m: int| 0 <= m < r.len() && r[m] == q;
        assert(emit_all(ps, no_w, region)[m] == q);
    }
}

/// Whether `q` is what some parameter of `ps` becomes.
pub open spec fn emitted_from(ps: Seq<ParamView>, no_w: bool, region: Option<Seq<char>>, q: ParamView) -> bool {
    exists|i: int| 0 <= i < ps.len() && emit(#[trigger] ps[i], no_w, region) == Some(q)
}

/// Every parameter of `emit_all(ps, ..)` is the image of a parameter of `ps`.
proof fn lemma_emit_all_from(ps: Seq<ParamView>, no_w: bool, region: Option<Seq<char>>)
    ensures
        forall|m: int|
            0 <= m < emit_all(ps, no_w, region).len() ==> emitted_from(
                ps,
                no_w,
                region,
                #[trigger] emit_all(ps, no_w, region)[m],
            ),
    decreases ps.len(),
{
    if ps.len() > 0 {
        lemma_emit_all_from(ps.drop_last(), no_w, region);
        let r = emit_all(ps.drop_last(), no_w, region);
        assert forall|m: int|
            0 <= m < emit_all(ps, no_w, region).len() implies emitted_from(
                ps,
                no_w,
                region,
                #[trigger] emit_all(ps, no_w, region)[m],
            ) by {
            if m < r.len() {
                let i = choose|i: int|
                    0 <= i < ps.drop_last().len() && emit(#[trigger] ps.drop_last()[i], no_w, region)
                        == Some(r[m]);
                assert(ps[i] == ps.drop_last()[i]);
            } else {
                assert(ps[ps.len() - 1] == ps.last());
            }
        }
    }
}

/// With both price bounds given, the request ends with the price range
/// `&suborder=<ps>-<pe>` holding both values, and none of its other
/// parameters is a `ps` or `pe` parameter.
pub proof fn lemma_price_range_last(url: Seq<char>)
    requires
        translate(url) is Ok,
        lookup(link_params(url), "ps"@) is Some,
        lookup(link_params(url), "pe"@) is Some,
    ensures
        translate(url) == Ok::<Seq<char>, TranslationError>(
            api_base() + seq!['?'] + join(request_params_of(url)) + "&suborder="@ + value_or_empty(
                lookup(link_params(url), "ps"@),
            ) + seq!['-'] + value_or_empty(lookup(link_params(url), "pe"@)),
        ),
        forall|k: int|
            0 <= k < request_params_of(url).len() ==> (#[trigger] request_params_of(url)[k]).0
                != "ps"@ && request_params_of(url)[k].0 != "pe"@,
{
    let ps = link_params(url);
    let region = region_value(ps)->Ok_0;
    let no_w = lookup(ps, "w"@) is None;
    lemma_emit_all_from(ps, no_w, region);
    lemma_keys_differ();
    let out = request_params_of(url);
    assert forall|k: int| 0 <= k < out.len() implies (#[trigger] out[k]).0 != "ps"@ && out[k].0
        != "pe"@ by {
        assert(emitted_from(ps, no_w, region, out[k]));
        let i = choose|i: int| 0 <= i < ps.len() && emit(#[trigger] ps[i], no_w, region) == Some(out[k]);
    }
    let f = value_or_empty(lookup(ps, "ps"@));
    let c = value_or_empty(lookup(ps, "pe"@));
    assert(api_base() + seq!['?'] + join(out) + ("&suborder="@ + f + seq!['-'] + c) =~= api_base()
        + seq!['?'] + join(out) + "&suborder="@ + f + seq!['-'] + c);
}

/// A zero category is dropped: when every `cg` parameter of the link is `0`
/// (and the link has no `category` parameter of its own), the request has no
/// `category` parameter.
pub proof fn lemma_zero_category_dropped(url: Seq<char>)
    requires
        translate(url) is Ok,
        lookup(link_params(url), "cg"@) == Some("0"@),
        forall|k: int|
            0 <= k < link_params(url).len() && (#[trigger] link_params(url)[k]).0 == "cg"@
                ==> link_params(url)[k].1 == Some("0"@),
        forall|k: int|
            0 <= k < link_params(url).len() ==> (#[trigger] link_params(url)[k]).0 != "category"@,
    ensures
        forall|k: int|
            0 <= k < request_params_of(url).len() ==> (#[trigger] request_params_of(url)[k]).0
                != "category"@,
{
    let ps = link_params(url);
    let region = region_value(ps)->Ok_0;
    let no_w = lookup(ps, "w"@) is None;
    lemma_emit_all_from(ps, no_w, region);
    lemma_keys_differ();
    let out = request_params_of(url);
    assert forall|k: int| 0 <= k < out.len() implies (#[trigger] out[k]).0 != "category"@ by {
        assert(emitted_from(ps, no_w, region, out[k]));
        let i = choose|i: int| 0 <= i < ps.len() && emit(#[trigger] ps[i], no_w, region) == Some(out[k]);
        assert(ps[i].0 != "category"@);
    }
}

/// Once `w` has a replacement value, no request parameter is named `w`.
proof fn lemma_no_w_left(url: Seq<char>, region: Option<Seq<char>>)
    requires
        region is Some,
        lookup(link_params(url), "w"@) is Some,
        region_value(link_params(url)) == Ok::<Option<Seq<char>>, TranslationError>(region),
    ensures
        forall|k: int|
            0 <= k < request_params_of(url).len() ==> (#[trigger] request_params_of(url)[k]).0
                != "w"@,
{
    let ps = link_params(url);
    lemma_emit_all_from(ps, false, region);
    lemma_keys_differ();
    let out = request_params_of(url);
    assert forall|k: int| 0 <= k < out.len() implies (#[trigger] out[k]).0 != "w"@ by {
        assert(emitted_from(ps, false, region, out[k]));
        let i = choose|i: int| 0 <= i < ps.len() && emit(#[trigger] ps[i], false, region) == Some(out[k]);
    }
}

/// A region code of 100 or more becomes `region=<code - 100>`.
pub proof fn lemma_region_from_code(url: Seq<char>, w: int)
    requires
        first_index(url, '?') is Some,
        lookup(link_params(url), "w"@) matches Some(wv) && int_of(wv) == Some(w),
        w >= 100,
    ensures
        translate(url) is Ok,
        request_params_of(url).contains(("region"@, Some(decimal((w - 100) as nat)))),
        forall|k: int|
            0 <= k < request_params_of(url).len() ==> (#[trigger] request_params_of(url)[k]).0
                != "w"@,
{
    let ps = link_params(url);
    lemma_lookup_found(ps, "w"@);
    lemma_keys_differ();
    let region = Some(decimal((w - 100) as nat));
    assert(region_value(ps) == Ok::<Option<Seq<char>>, TranslationError>(region));
    let i = choose|i: int|
        0 <= i < ps.len() && (#[trigger] ps[i]).0 == "w"@ && value_or_empty(ps[i].1)
            == lookup(ps, "w"@)->Some_0;
    lemma_emit_all_contains(ps, false, region, i);
    lemma_no_w_left(url, region);
}

/// A region code under 100 with a sub-region gives `region=<sub-region>`,
/// the sub-region's text as it stands.
pub proof fn lemma_region_from_subregion(url: Seq<char>, w: int, cv: Seq<char>)
    requires
        first_index(url, '?') is Some,
        lookup(link_params(url), "w"@) matches Some(wv) && int_of(wv) == Some(w),
        w < 100,
        lookup(link_params(url), "ca"@) == Some(cv),
        int_of(cv) is Some,
    ensures
        translate(url) is Ok,
        request_params_of(url).contains(("region"@, Some(cv))),
        forall|k: int|
            0 <= k < request_params_of(url).len() ==> (#[trigger] request_params_of(url)[k]).0
                != "w"@,
{
    let ps = link_params(url);
    lemma_lookup_found(ps, "w"@);
    lemma_keys_differ();
    let region = Some(cv);
    assert(region_value(ps) == Ok::<Option<Seq<char>>, TranslationError>(region));
    let i = choose|i: int|
        0 <= i < ps.len() && (#[trigger] ps[i]).0 == "w"@ && value_or_empty(ps[i].1)
            == lookup(ps, "w"@)->Some_0;
    lemma_emit_all_contains(ps, false, region, i);
    lemma_no_w_left(url, region);
}

} // verus!
