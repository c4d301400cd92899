//! Queries as a list of fragments and a list of parameters, and how they are
//! composed and rendered.
use vstd::prelude::*;
use vstd::string::StringExecFns;

use crate::dialect::Dialect;
use crate::error::ParamCountError;
use crate::lexer::{
    escaped_text, flush_spec, is_quote, lemma_scan_wf, lemma_scan_without_question, piece_wf,
    pieces_view, scan_chars, scan_from, scan_spec, Piece, PieceModel,
};
use crate::script::{lemma_window_ws_first, lemma_window_ws_last};
use crate::text::{
    chars_of, lemma_ws_first, lemma_ws_last, push_char, push_chars, trim, trim_range, ws_first,
    ws_last,
};

verus! {

/// A wrapper certifying that the contained SQL string is safe to embed
/// directly (i.e. not user-supplied input that needs parameterisation).
#[derive(Debug)]
pub struct Trusted {
    sql: String,
}

impl View for Trusted {
    type V = Seq<char>;

    closed spec fn view(&self) -> Seq<char> {
        self.sql@
    }
}

impl Trusted {
    /// Wraps a dynamic string as trusted SQL. Use this only for SQL that
    /// originates from a safe source (e.g. migration files read from disk at
    /// compile time, or column/table names from internal constants). For
    /// static string literals, the `From<&'static str>` conversion is
    /// preferred.
    pub fn unchecked(value: &str) -> (r: Trusted)
        ensures
            r@ == value@,
    {
        Trusted { sql: String::from_str(value) }
    }

    /// The SQL text.
    pub fn as_str(&self) -> (r: &str)
        ensures
            r@ == self@,
    {
        self.sql.as_str()
    }
}

impl From<&'static str> for Trusted {
    fn from(value: &'static str) -> (r: Self)
        ensures
            r@ == value@,
    {
        Trusted::unchecked(value)
    }
}

impl vstd::std_specs::convert::FromSpecImpl<&'static str> for Trusted {
    open spec fn obeys_from_spec() -> bool {
        false
    }

    open spec fn from_spec(v: &'static str) -> Self {
        arbitrary()
    }
}

/// A piece of a query, as the specification sees it.
pub enum FragmentModel {
    Raw(Seq<char>),
    Param,
}

/// A piece of a query: SQL text, or a placeholder for the next parameter.
#[derive(Debug)]
pub enum Fragment {
    Raw(String),
    Param,
}

impl View for Fragment {
    type V = FragmentModel;

    open spec fn view(&self) -> FragmentModel {
        match self {
            Fragment::Raw(t) => FragmentModel::Raw(t@),
            Fragment::Param => FragmentModel::Param,
        }
    }
}

pub open spec fn fragments_view(v: Seq<Fragment>) -> Seq<FragmentModel> {
    v.map_values(|f: Fragment| f@)
}

/// A query as the specification sees it.
pub struct QueryModel<P> {
    pub fragments: Seq<FragmentModel>,
    pub params: Seq<P>,
}

/// SQL fragments and the parameters their placeholders stand for.
#[derive(Debug)]
pub struct Query<P> {
    fragments: Vec<Fragment>,
    params: Vec<P>,
}

impl<P> View for Query<P> {
    type V = QueryModel<P>;

    closed spec fn view(&self) -> QueryModel<P> {
        QueryModel { fragments: fragments_view(self.fragments@), params: self.params@ }
    }
}

// -----------------------------------------------------------------------------
//                                 Parsing
// -----------------------------------------------------------------------------

/// The fragment a piece of `s` becomes.
pub open spec fn piece_fragment(s: Seq<char>, p: PieceModel) -> FragmentModel {
    match p {
        PieceModel::Raw(a, b) => FragmentModel::Raw(s.subrange(a, b)),
        PieceModel::Escaped(t) => FragmentModel::Raw(t),
        PieceModel::Param => FragmentModel::Param,
    }
}

/// The fragments of the SQL text `s`.
pub open spec fn fragments_of(s: Seq<char>) -> Seq<FragmentModel> {
    scan_spec(s).map_values(|p: PieceModel| piece_fragment(s, p))
}

/// The query that the SQL text `s` with the parameters `params` becomes.
pub open spec fn query_of<P>(s: Seq<char>, params: Seq<P>) -> QueryModel<P> {
    QueryModel { fragments: fragments_of(s), params }
}

/// The fragments of a statement.
pub fn parse(sql: &str) -> (r: Vec<Fragment>)
    ensures
        fragments_view(r@) == fragments_of(sql@),
{
    let chars = chars_of(sql);
    let s = chars.as_slice();
    let pieces = scan_chars(s);
    let ghost ps = pieces_view(pieces@);
    proof {
        lemma_scan_wf(s@);
    }
    let mut out: Vec<Fragment> = Vec::new();
    let mut k: usize = 0;
    while k < pieces.len()
        invariant
            s@ == sql@,
            ps == pieces_view(pieces@),
            ps == scan_spec(s@),
            k <= pieces@.len(),
            forall|m: int| 0 <= m < ps.len() ==> piece_wf(s@, #[trigger] ps[m]),
            fragments_view(out@) =~= ps.take(k as int).map_values(
                |p: PieceModel| piece_fragment(s@, p),
            ),
        decreases pieces@.len() - k,
    {
        assert(ps[k as int] == pieces@[k as int]@);
        assert(piece_wf(s@, ps[k as int]));
        let f = match &pieces[k] {
            Piece::Raw(a, b) => {
                let mut t = String::new();
                push_chars(&mut t, s, *a, *b);
                Fragment::Raw(t)
            },
            Piece::Escaped(t) => Fragment::Raw(t.clone()),
            Piece::Param => Fragment::Param,
        };
        assert(f@ == piece_fragment(s@, ps[k as int]));
        let ghost before = fragments_view(out@);
        out.push(f);
        assert(fragments_view(out@) =~= before.push(piece_fragment(s@, ps[k as int])));
        k = k + 1;
        assert(ps.take(k as int) =~= ps.take(k - 1).push(ps[k - 1]));
    }
    assert(ps.take(k as int) =~= ps);
    out
}

/// The query that a statement and its parameters become.
pub fn make_query<P>(statement: Trusted, params: Vec<P>) -> (r: Query<P>)
    ensures
        r@ == query_of(statement@, params@),
{
    let fragments = parse(statement.as_str());
    Query { fragments, params }
}

impl<P> From<Trusted> for Query<P> {
    fn from(value: Trusted) -> (r: Self)
        ensures
            r@ == query_of(value@, Seq::<P>::empty()),
    {
        make_query(value, Vec::new())
    }
}

impl<P> vstd::std_specs::convert::FromSpecImpl<Trusted> for Query<P> {
    open spec fn obeys_from_spec() -> bool {
        false
    }

    open spec fn from_spec(v: Trusted) -> Self {
        arbitrary()
    }
}

impl<P> From<&'static str> for Query<P> {
    fn from(value: &'static str) -> (r: Self)
        ensures
            r@ == query_of(value@, Seq::<P>::empty()),
    {
        make_query(Trusted::unchecked(value), Vec::new())
    }
}

impl<P> vstd::std_specs::convert::FromSpecImpl<&'static str> for Query<P> {
    open spec fn obeys_from_spec() -> bool {
        false
    }

    open spec fn from_spec(v: &'static str) -> Self {
        arbitrary()
    }
}

// -----------------------------------------------------------------------------
//                          How queries compose
// -----------------------------------------------------------------------------

/// `q` followed by `r`.
pub open spec fn push_spec<P>(q: QueryModel<P>, r: QueryModel<P>) -> QueryModel<P> {
    QueryModel { fragments: q.fragments + r.fragments, params: q.params + r.params }
}

/// `q` followed by `prefix` and `r`, or `q` alone where `r` has no fragments:
/// an empty fragment takes its prefix, and its parameters, with it.
pub open spec fn push_with_prefix_spec<P>(
    q: QueryModel<P>,
    prefix: Seq<char>,
    r: QueryModel<P>,
) -> QueryModel<P> {
    if r.fragments.len() == 0 {
        q
    } else {
        QueryModel {
            fragments: q.fragments.push(FragmentModel::Raw(prefix)) + r.fragments,
            params: q.params + r.params,
        }
    }
}

/// `q` in parentheses, unless it is empty.
pub open spec fn group_spec<P>(q: QueryModel<P>) -> QueryModel<P> {
    if q.fragments.len() == 0 {
        q
    } else {
        QueryModel {
            fragments: seq![FragmentModel::Raw("("@)] + q.fragments + seq![
                FragmentModel::Raw(")"@),
            ],
            params: q.params,
        }
    }
}

/// `n` placeholders separated by commas.
pub open spec fn in_list(n: nat) -> Seq<FragmentModel>
    decreases n,
{
    if n <= 1 {
        seq![FragmentModel::Param]
    } else {
        in_list((n - 1) as nat) + seq![FragmentModel::Raw(","@), FragmentModel::Param]
    }
}

/// `subject IN (?, ...)` with one placeholder per parameter, or the
/// condition `1=0`, which no row meets, where there are no parameters.
pub open spec fn in_spec<P>(subject: Seq<char>, params: Seq<P>) -> QueryModel<P> {
    if params.len() == 0 {
        query_of("1=0"@, Seq::<P>::empty())
    } else {
        QueryModel {
            fragments: seq![FragmentModel::Raw(subject), FragmentModel::Raw("IN ("@)] + in_list(
                params.len(),
            ) + seq![FragmentModel::Raw(")"@)],
            params,
        }
    }
}

/// `q` joined to `r` by `word`, or `r` alone where `q` is empty.
pub open spec fn join_spec<P>(q: QueryModel<P>, word: Seq<char>, r: QueryModel<P>) -> QueryModel<
    P,
> {
    if q.fragments.len() > 0 {
        push_with_prefix_spec(q, word, r)
    } else {
        push_spec(q, r)
    }
}

/// `SELECT column FROM (q)`.
pub open spec fn pluck_spec<P>(q: QueryModel<P>, column: Seq<char>) -> QueryModel<P> {
    push_spec(
        push_spec(
            push_spec(query_of("SELECT"@, Seq::<P>::empty()), query_of(column, Seq::<P>::empty())),
            query_of("FROM"@, Seq::<P>::empty()),
        ),
        group_spec(q),
    )
}

impl<P> Query<P> {
    /// Modifies the current query instance by appending the given fragment.
    pub fn push(&mut self, query: Query<P>) -> (r: &mut Self)
        ensures
            r@ == push_spec(old(self)@, query@),
            *final(self) == *final(r),
    {
        let Query { mut fragments, mut params } = query;
        let ghost f0 = self.fragments@;
        let ghost g0 = fragments@;
        self.fragments.append(&mut fragments);
        self.params.append(&mut params);
        assert(fragments_view(self.fragments@) =~= fragments_view(f0) + fragments_view(g0));
        self
    }

    /// Modifies the current query by appending a given fragment with a
    /// specified prefix. The prefix only gets appended if the provided fragment
    /// is not empty.
    pub fn push_with_prefix(&mut self, prefix: &'static str, query: Query<P>) -> (r: &mut Self)
        ensures
            r@ == push_with_prefix_spec(old(self)@, prefix@, query@),
            *final(self) == *final(r),
    {
        if query.fragments.len() > 0 {
            let Query { mut fragments, mut params } = query;
            let ghost f0 = self.fragments@;
            let ghost g0 = fragments@;
            self.fragments.push(Fragment::Raw(String::from_str(prefix)));
            let ghost f1 = self.fragments@;
            assert(fragments_view(f1) =~= fragments_view(f0).push(FragmentModel::Raw(prefix@)));
            self.fragments.append(&mut fragments);
            self.params.append(&mut params);
            assert(fragments_view(self.fragments@) =~= fragments_view(f1) + fragments_view(g0));
        }
        self
    }

    /// Shortcut for [Query::push_with_prefix] with a prefix of "HAVING".
    pub fn push_having(&mut self, query: Query<P>) -> (r: &mut Self)
        ensures
            r@ == push_with_prefix_spec(old(self)@, "HAVING"@, query@),
            *final(self) == *final(r),
    {
        self.push_with_prefix("HAVING", query)
    }

    /// Shortcut for [Query::push_with_prefix] with a prefix of "WHERE".
    pub fn push_where(&mut self, query: Query<P>) -> (r: &mut Self)
        ensures
            r@ == push_with_prefix_spec(old(self)@, "WHERE"@, query@),
            *final(self) == *final(r),
    {
        self.push_with_prefix("WHERE", query)
    }

    /// Creates a new and empty [Query] instance.
    pub fn new() -> (r: Self)
        ensures
            r@.fragments == Seq::<FragmentModel>::empty(),
            r@.params == Seq::<P>::empty(),
    {
        let r = Query { fragments: Vec::new(), params: Vec::new() };
        assert(fragments_view(r.fragments@) =~= Seq::<FragmentModel>::empty());
        r
    }

    /// Creates a new [Query] instance from the provided query. If it is not
    /// empty, it gets encapsulated using parentheses.
    pub fn group(query: Query<P>) -> (r: Self)
        ensures
            r@ == group_spec(query@),
    {
        if query.fragments.len() == 0 {
            return query;
        }
        let Query { mut fragments, params } = query;
        let ghost g0 = fragments@;
        let mut out: Vec<Fragment> = Vec::new();
        out.push(Fragment::Raw(String::from_str("(")));
        out.append(&mut fragments);
        out.push(Fragment::Raw(String::from_str(")")));
        assert(fragments_view(out@) =~= seq![FragmentModel::Raw("("@)] + fragments_view(g0)
            + seq![FragmentModel::Raw(")"@)]);
        Query { fragments: out, params }
    }

    /// Creates a new subquery that just selects the specified column from the
    /// current query.
    pub fn pluck(self, column: &'static str) -> (r: Query<P>)
        ensures
            r@ == pluck_spec(self@, column@),
    {
        let mut outer: Query<P> = Query::from("SELECT");
        outer.push(Query::from(column));
        outer.push(Query::from("FROM"));
        outer.push(Query::group(self));
        outer
    }

    /// `subject IN (?, ...)` with one placeholder per parameter; `1=0` where
    /// there are none, since no row is in an empty list.
    pub fn in_(subject: &'static str, params: Vec<P>) -> (r: Self)
        ensures
            r@ == in_spec(subject@, params@),
    {
        if params.len() == 0 {
            return Query::from("1=0");
        }
        let mut fragments: Vec<Fragment> = Vec::new();
        fragments.push(Fragment::Raw(String::from_str(subject)));
        fragments.push(Fragment::Raw(String::from_str("IN (")));
        let ghost head = seq![FragmentModel::Raw(subject@), FragmentModel::Raw("IN ("@)];
        assert(fragments_view(fragments@) =~= head);
        let mut i: usize = 0;
        while i < params.len()
            invariant
                i <= params@.len(),
                params@.len() > 0,
                i == 0 ==> fragments_view(fragments@) == head,
                i > 0 ==> fragments_view(fragments@) == head + in_list(i as nat),
            decreases params@.len() - i,
        {
            let ghost before = fragments_view(fragments@);
            if i > 0 {
                fragments.push(Fragment::Raw(String::from_str(",")));
            }
            fragments.push(Fragment::Param);
            i = i + 1;
            if i == 1 {
                assert(fragments_view(fragments@) =~= head + in_list(1));
            } else {
                assert(fragments_view(fragments@) =~= before + seq![
                    FragmentModel::Raw(","@),
                    FragmentModel::Param,
                ]);
                assert(in_list(i as nat) == in_list((i - 1) as nat) + seq![
                    FragmentModel::Raw(","@),
                    FragmentModel::Param,
                ]);
                assert(fragments_view(fragments@) =~= head + in_list(i as nat));
            }
        }
        let ghost body = fragments_view(fragments@);
        fragments.push(Fragment::Raw(String::from_str(")")));
        assert(fragments_view(fragments@) =~= body.push(FragmentModel::Raw(")"@)));
        assert(body == head + in_list(params@.len()));
        assert(fragments_view(fragments@) =~= head + in_list(params@.len()) + seq![
            FragmentModel::Raw(")"@),
        ]);
        Query { params, fragments }
    }

    /// `self AND query`, or `query` alone where `self` is empty.
    pub fn and(self, query: Query<P>) -> (r: Self)
        ensures
            r@ == join_spec(self@, "AND"@, query@),
    {
        let mut q = self;
        if q.fragments.len() > 0 {
            q.push_with_prefix("AND", query);
        } else {
            q.push(query);
        }
        q
    }

    /// `self OR query`, or `query` alone where `self` is empty.
    pub fn or(self, query: Query<P>) -> (r: Self)
        ensures
            r@ == join_spec(self@, "OR"@, query@),
    {
        let mut q = self;
        if q.fragments.len() > 0 {
            q.push_with_prefix("OR", query);
        } else {
            q.push(query);
        }
        q
    }
}

impl<P> Default for Query<P> {
    fn default() -> (r: Self)
        ensures
            r@.fragments == Seq::<FragmentModel>::empty(),
            r@.params == Seq::<P>::empty(),
    {
        Query::new()
    }
}

// -----------------------------------------------------------------------------
//                                Rendering
// -----------------------------------------------------------------------------

/// The number of placeholders among `frags`.
pub open spec fn count_params(frags: Seq<FragmentModel>) -> nat
    decreases frags.len(),
{
    if frags.len() == 0 {
        0
    } else {
        count_params(frags.drop_last()) + match frags.last() {
            FragmentModel::Param => 1nat,
            FragmentModel::Raw(_) => 0nat,
        }
    }
}

/// The SQL text of `frags` for the dialect `D` when `k` placeholders came
/// before them: fragments joined by single spaces, each placeholder spelled
/// for its 1-based position counted from `k`.
pub open spec fn render_from<D: Dialect>(frags: Seq<FragmentModel>, k: nat) -> Seq<char>
    decreases frags.len(),
{
    if frags.len() == 0 {
        seq![]
    } else {
        let prev = render_from::<D>(frags.drop_last(), k);
        let sep = if prev.len() > 0 {
            prev.push(' ')
        } else {
            prev
        };
        match frags.last() {
            FragmentModel::Param => sep + D::placeholder_spec(k + count_params(frags.drop_last()) + 1),
            FragmentModel::Raw(t) => sep + t,
        }
    }
}

/// The SQL text of `frags` for the dialect `D`: fragments joined by single
/// spaces, each placeholder spelled for its 1-based position.
pub open spec fn render<D: Dialect>(frags: Seq<FragmentModel>) -> Seq<char> {
    render_from::<D>(frags, 0)
}

proof fn lemma_count_params_bound(frags: Seq<FragmentModel>)
    ensures
        count_params(frags) <= frags.len(),
    decreases frags.len(),
{
    if frags.len() > 0 {
        lemma_count_params_bound(frags.drop_last());
    }
}

impl<P> Query<P> {
    /// Build the query into a SQL string and a parameter vector, spelling
    /// placeholders the way `D` requires.
    ///
    /// Fails with [ParamCountError] if the query holds a different number of
    /// placeholders than it does parameters, so a statement the server would
    /// reject never leaves the process.
    pub fn build<D: Dialect>(self) -> (r: Result<(String, Vec<P>), ParamCountError>)
        ensures
            match r {
                Ok((sql, params)) => {
                    &&& count_params(self@.fragments) == self@.params.len()
                    &&& sql@ == render::<D>(self@.fragments)
                    &&& params@ == self@.params
                },
                Err(e) => {
                    &&& count_params(self@.fragments) != self@.params.len()
                    &&& e.placeholders == count_params(self@.fragments)
                    &&& e.params == self@.params.len()
                },
            },
    {
        let ghost fv = self@.fragments;
        let Query { fragments, params } = self;
        let mut sql = String::new();
        let mut placeholders: usize = 0;
        let mut k: usize = 0;
        while k < fragments.len()
            invariant
                fv == fragments_view(fragments@),
                k <= fragments@.len(),
                sql@ == render::<D>(fv.take(k as int)),
                placeholders == count_params(fv.take(k as int)),
            decreases fragments@.len() - k,
        {
            proof {
                lemma_count_params_bound(fv.take(k as int));
            }
            let ghost prefix = fv.take(k as int);
            let ghost next = fv.take(k + 1);
            assert(next.drop_last() =~= prefix);
            assert(next.last() == fragments@[k as int]@);
            if !sql.as_str().is_empty() {
                push_char(&mut sql, ' ');
            }
            match &fragments[k] {
                Fragment::Param => {
                    placeholders = placeholders + 1;
                    D::placeholder(placeholders, &mut sql);
                },
                Fragment::Raw(text) => {
                    sql.append(text.as_str());
                },
            }
            k = k + 1;
        }
        assert(fv.take(k as int) =~= fv);
        if placeholders != params.len() {
            return Err(ParamCountError { placeholders, params: params.len() });
        }
        Ok((sql, params))
    }
}

// -----------------------------------------------------------------------------
//                      Composition keeps queries buildable
// -----------------------------------------------------------------------------

/// A query that builds: it holds as many placeholders as parameters.
pub open spec fn builds<P>(q: QueryModel<P>) -> bool {
    count_params(q.fragments) == q.params.len()
}

/// Two fragment lists put together hold the placeholders of both.
pub proof fn lemma_count_params_concat(a: Seq<FragmentModel>, b: Seq<FragmentModel>)
    ensures
        count_params(a + b) == count_params(a) + count_params(b),
    decreases b.len(),
{
    if b.len() == 0 {
        assert(a + b =~= a);
    } else {
        assert((a + b).drop_last() =~= a + b.drop_last());
        assert((a + b).last() == b.last());
        lemma_count_params_concat(a, b.drop_last());
    }
}

proof fn lemma_count_raw(t: Seq<char>)
    ensures
        count_params(seq![FragmentModel::Raw(t)]) == 0,
{
    let f = seq![FragmentModel::Raw(t)];
    assert(f.drop_last() =~= Seq::<FragmentModel>::empty());
    assert(count_params(Seq::<FragmentModel>::empty()) == 0);
    assert(f.last() == FragmentModel::Raw(t));
}

/// Appending one buildable query to another gives a buildable query.
pub proof fn lemma_push_builds<P>(q: QueryModel<P>, r: QueryModel<P>)
    requires
        builds(q),
        builds(r),
    ensures
        builds(push_spec(q, r)),
{
    lemma_count_params_concat(q.fragments, r.fragments);
}

/// Appending a buildable query behind a prefix keeps a query buildable.
pub proof fn lemma_push_with_prefix_builds<P>(q: QueryModel<P>, prefix: Seq<char>, r: QueryModel<P>)
    requires
        builds(q),
        builds(r),
    ensures
        builds(push_with_prefix_spec(q, prefix, r)),
{
    lemma_count_raw(prefix);
    lemma_count_params_concat(q.fragments, seq![FragmentModel::Raw(prefix)]);
    assert(q.fragments.push(FragmentModel::Raw(prefix)) =~= q.fragments + seq![
        FragmentModel::Raw(prefix),
    ]);
    lemma_count_params_concat(q.fragments.push(FragmentModel::Raw(prefix)), r.fragments);
}

/// Joining buildable queries with `AND` or `OR` gives a buildable query.
pub proof fn lemma_join_builds<P>(q: QueryModel<P>, word: Seq<char>, r: QueryModel<P>)
    requires
        builds(q),
        builds(r),
    ensures
        builds(join_spec(q, word, r)),
{
    lemma_push_with_prefix_builds(q, word, r);
    lemma_push_builds(q, r);
}

/// Parentheses keep a query buildable and its parameters as they were.
pub proof fn lemma_group_builds<P>(q: QueryModel<P>)
    requires
        builds(q),
    ensures
        builds(group_spec(q)),
        group_spec(q).params == q.params,
{
    lemma_count_raw("("@);
    lemma_count_raw(")"@);
    lemma_count_params_concat(seq![FragmentModel::Raw("("@)], q.fragments);
    lemma_count_params_concat(
        seq![FragmentModel::Raw("("@)] + q.fragments,
        seq![FragmentModel::Raw(")"@)],
    );
}

proof fn lemma_count_in_list(n: nat)
    requires
        n >= 1,
    ensures
        count_params(in_list(n)) == n,
    decreases n,
{
    if n <= 1 {
        let f = seq![FragmentModel::Param];
        assert(f.drop_last() =~= Seq::<FragmentModel>::empty());
        assert(count_params(Seq::<FragmentModel>::empty()) == 0);
        assert(f.last() == FragmentModel::Param);
        assert(in_list(n) == f);
    } else {
        lemma_count_in_list((n - 1) as nat);
        let pair = seq![FragmentModel::Raw(","@), FragmentModel::Param];
        assert(pair.drop_last() =~= seq![FragmentModel::Raw(","@)]);
        assert(pair.last() == FragmentModel::Param);
        lemma_count_raw(","@);
        assert(count_params(pair) == 1);
        lemma_count_params_concat(in_list((n - 1) as nat), pair);
    }
}

/// Text without a `?` parses to fragments without a placeholder.
pub proof fn lemma_fragments_without_question(s: Seq<char>)
    requires
        forall|k: int| 0 <= k < s.len() ==> s[k] != '?',
    ensures
        count_params(fragments_of(s)) == 0,
{
    lemma_scan_without_question(s);
    lemma_no_param_count(fragments_of(s));
}

proof fn lemma_no_param_count(f: Seq<FragmentModel>)
    requires
        forall|k: int| 0 <= k < f.len() ==> !(#[trigger] f[k] is Param),
    ensures
        count_params(f) == 0,
    decreases f.len(),
{
    if f.len() > 0 {
        assert(!(f[f.len() - 1] is Param));
        lemma_no_param_count(f.drop_last());
    }
}

/// An `IN` list always builds, whatever its parameters.
pub proof fn lemma_in_builds<P>(subject: Seq<char>, params: Seq<P>)
    ensures
        builds(in_spec(subject, params)),
{
    if params.len() == 0 {
        reveal_strlit("1=0");
        assert forall|k: int| 0 <= k < "1=0"@.len() implies "1=0"@[k] != '?' by {}
        lemma_fragments_without_question("1=0"@);
    } else {
        let head = seq![FragmentModel::Raw(subject), FragmentModel::Raw("IN ("@)];
        lemma_count_raw(subject);
        lemma_count_raw("IN ("@);
        lemma_count_raw(")"@);
        lemma_count_params_concat(seq![FragmentModel::Raw(subject)], seq![FragmentModel::Raw("IN ("@)]);
        assert(seq![FragmentModel::Raw(subject)] + seq![FragmentModel::Raw("IN ("@)] =~= head);
        lemma_count_in_list(params.len());
        lemma_count_params_concat(head, in_list(params.len()));
        lemma_count_params_concat(head + in_list(params.len()), seq![FragmentModel::Raw(")"@)]);
    }
}

/// Two SQL texts joined by a single space, where both are non-empty.
pub open spec fn join_sql(x: Seq<char>, y: Seq<char>) -> Seq<char> {
    if x.len() == 0 {
        y
    } else if y.len() == 0 {
        x
    } else {
        x + seq![' '] + y
    }
}

/// No fragment of `frags` is empty text.
pub open spec fn no_empty_text(frags: Seq<FragmentModel>) -> bool {
    forall|k: int| 0 <= k < frags.len() ==> !(#[trigger] frags[k] matches FragmentModel::Raw(t)
        && t.len() == 0)
}

/// Rendering `a` followed by `b` gives `a`'s text, a space and `b`'s text,
/// with `b`'s placeholders numbered on from `a`'s, where no fragment of `b`
/// is empty text.
pub proof fn lemma_render_concat<D: Dialect>(a: Seq<FragmentModel>, b: Seq<FragmentModel>, k: nat)
    requires
        no_empty_text(b),
    ensures
        render_from::<D>(a + b, k) == join_sql(
            render_from::<D>(a, k),
            render_from::<D>(b, k + count_params(a)),
        ),
    decreases b.len(),
{
    let x = render_from::<D>(a, k);
    if b.len() == 0 {
        assert(a + b =~= a);
    } else {
        let bl = b.drop_last();
        assert((a + b).drop_last() =~= a + bl);
        assert((a + b).last() == b.last());
        assert(no_empty_text(bl)) by {
            assert forall|i: int| 0 <= i < bl.len() implies !(#[trigger] bl[i] matches FragmentModel::Raw(
                t,
            ) && t.len() == 0) by {
                assert(bl[i] == b[i]);
            }
        }
        lemma_render_concat::<D>(a, bl, k);
        lemma_count_params_concat(a, bl);
        let kb = k + count_params(a);
        let y = render_from::<D>(bl, kb);
        let piece = match b.last() {
            FragmentModel::Param => D::placeholder_spec(kb + count_params(bl) + 1),
            FragmentModel::Raw(t) => t,
        };
        assert(piece.len() > 0) by {
            D::lemma_placeholder_nonempty(kb + count_params(bl) + 1);
            assert(b[b.len() - 1] == b.last());
        }
        let joined = join_sql(x, y);
        let lhs_sep = if joined.len() > 0 { joined.push(' ') } else { joined };
        assert(render_from::<D>(a + b, k) == lhs_sep + piece);
        let rhs_sep = if y.len() > 0 { y.push(' ') } else { y };
        assert(render_from::<D>(b, kb) == rhs_sep + piece);
        if x.len() == 0 {
        } else if y.len() == 0 {
            assert(lhs_sep + piece =~= x + seq![' '] + (rhs_sep + piece));
        } else {
            assert(lhs_sep + piece =~= x + seq![' '] + (rhs_sep + piece));
        }
    }
}

/// Building a query after another was pushed onto it gives the first
/// query's SQL, a space and the second's, with the second's placeholders
/// numbered on from the first's, and the parameters of both in order; where
/// no fragment of the pushed query is empty text.
pub proof fn lemma_push_renders<D: Dialect, P>(q: QueryModel<P>, r: QueryModel<P>)
    requires
        no_empty_text(r.fragments),
    ensures
        render::<D>(push_spec(q, r).fragments) == join_sql(
            render::<D>(q.fragments),
            render_from::<D>(r.fragments, count_params(q.fragments)),
        ),
        count_params(push_spec(q, r).fragments) == count_params(q.fragments) + count_params(
            r.fragments,
        ),
        push_spec(q, r).params == q.params + r.params,
{
    lemma_render_concat::<D>(q.fragments, r.fragments, 0);
    lemma_count_params_concat(q.fragments, r.fragments);
}

/// Placeholders that are all spelled alike, as MySQL's are, do not depend on
/// where the fragments stand.
pub proof fn lemma_render_from_mysql(frags: Seq<FragmentModel>, k: nat)
    ensures
        render_from::<crate::dialect::MySql>(frags, k) == render::<crate::dialect::MySql>(frags),
    decreases frags.len(),
{
    if frags.len() > 0 {
        lemma_render_from_mysql(frags.drop_last(), k);
    }
}

// -----------------------------------------------------------------------------
//                       `??` is a literal `?`
// -----------------------------------------------------------------------------

/// `s` with each `??` read as a single `?`, left to right.
pub open spec fn collapse_escapes(s: Seq<char>) -> Seq<char>
    decreases s.len(),
{
    if s.len() == 0 {
        seq![]
    } else if s.len() >= 2 && s[0] == '?' && s[1] == '?' {
        seq!['?'] + collapse_escapes(s.subrange(2, s.len() as int))
    } else {
        seq![s[0]] + collapse_escapes(s.subrange(1, s.len() as int))
    }
}

/// Every `?` of `s` stands in a `??` pair, read left to right.
pub open spec fn only_doubled_questions(s: Seq<char>) -> bool
    decreases s.len(),
{
    if s.len() == 0 {
        true
    } else if s[0] == '?' {
        s.len() >= 2 && s[1] == '?' && only_doubled_questions(s.subrange(2, s.len() as int))
    } else {
        only_doubled_questions(s.subrange(1, s.len() as int))
    }
}

/// `s` holds no quote, no `$`, and nothing that opens a comment.
pub open spec fn plain_sql(s: Seq<char>) -> bool {
    forall|k: int|
        0 <= k < s.len() ==> {
            &&& !is_quote(#[trigger] s[k])
            &&& s[k] != '$'
            &&& !(s[k] == '-' && k + 1 < s.len() && s[k + 1] == '-')
            &&& !(s[k] == '/' && k + 1 < s.len() && s[k + 1] == '*')
        }
}

/// The text fragments that the text `t` makes once trimmed: one, or none
/// where it is blank.
pub open spec fn text_fragment(t: Seq<char>) -> Seq<FragmentModel> {
    if trim(t).len() > 0 {
        seq![FragmentModel::Raw(trim(t))]
    } else {
        seq![]
    }
}

/// Trimming a range of `s` gives the range that `trim_range` names.
pub proof fn lemma_trim_subrange(s: Seq<char>, a: int, b: int)
    requires
        0 <= a <= b <= s.len(),
    ensures
        trim(s.subrange(a, b)) == s.subrange(trim_range(s, a, b).0, trim_range(s, a, b).1),
{
    let x = s.subrange(a, b);
    let n = b - a;
    lemma_window_ws_first(s, a, b, 0, n);
    lemma_ws_first(x, 0, n);
    let f = ws_first(x, 0, n);
    lemma_window_ws_last(s, a, b, f, n);
    lemma_ws_last(x, f, n);
    let l = ws_last(x, f, n);
    assert(trim_range(s, a, b) == (a + f, a + l));
    assert(x.subrange(f, l) =~= s.subrange(a + f, a + l));
}

proof fn lemma_scan_plain(s: Seq<char>, i: int, start: int, esc: Option<Seq<char>>)
    requires
        plain_sql(s),
        0 <= start <= i <= s.len(),
        only_doubled_questions(s.subrange(i, s.len() as int)),
    ensures
        scan_from(s, i, start, esc).map_values(|p: PieceModel| piece_fragment(s, p))
            == text_fragment(
            escaped_text(esc) + s.subrange(start, i) + collapse_escapes(
                s.subrange(i, s.len() as int),
            ),
        ),
    decreases s.len() - i,
{
    let n = s.len() as int;
    let u = s.subrange(i, n);
    let t = escaped_text(esc) + s.subrange(start, i) + collapse_escapes(u);
    let r = scan_from(s, i, start, esc);
    if i == n {
        assert(u.len() == 0);
        assert(collapse_escapes(u) =~= Seq::<char>::empty());
        assert(r == flush_spec(s, esc, start, n));
        match esc {
            Some(t0) => {
                assert(t =~= t0 + s.subrange(start, n));
                assert(r.map_values(|p: PieceModel| piece_fragment(s, p)) =~= text_fragment(t));
            },
            None => {
                assert(t =~= s.subrange(start, n));
                lemma_trim_subrange(s, start, n);
                lemma_ws_first(s, start, n);
                lemma_ws_last(s, ws_first(s, start, n), n);
                assert(r.map_values(|p: PieceModel| piece_fragment(s, p)) =~= text_fragment(t));
            },
        }
    } else {
        assert(u[0] == s[i]);
        assert(!is_quote(s[i]) && s[i] != '$');
        if i + 1 < n {
            assert(u[1] == s[i + 1]);
        }
        if s[i] == '?' {
            assert(u.len() >= 2 && u[1] == '?');
            assert(u.subrange(2, u.len() as int) =~= s.subrange(i + 2, n));
            let e2 = escaped_text(esc) + s.subrange(start, i + 1);
            lemma_scan_plain(s, i + 2, i + 2, Some(e2));
            assert(r == scan_from(s, i + 2, i + 2, Some(e2)));
            assert(collapse_escapes(u) == seq!['?'] + collapse_escapes(s.subrange(i + 2, n)));
            assert(e2 + s.subrange(i + 2, i + 2) + collapse_escapes(s.subrange(i + 2, n)) =~= t);
        } else {
            assert(u.subrange(1, u.len() as int) =~= s.subrange(i + 1, n));
            lemma_scan_plain(s, i + 1, start, esc);
            assert(r == scan_from(s, i + 1, start, esc));
            assert(collapse_escapes(u) == seq![s[i]] + collapse_escapes(s.subrange(i + 1, n)));
            assert(escaped_text(esc) + s.subrange(start, i + 1) + collapse_escapes(
                s.subrange(i + 1, n),
            ) =~= t);
        }
    }
}

/// Text with no quote, comment or `$`, where every `?` is doubled, parses
/// to one text fragment: the whole text, trimmed, with each `??` read as
/// `?`; or to none where that is blank. What stands before a `??` is kept.
pub proof fn lemma_escaped_text_parses_whole(s: Seq<char>)
    requires
        plain_sql(s),
        only_doubled_questions(s),
    ensures
        fragments_of(s) == text_fragment(collapse_escapes(s)),
{
    assert(s.subrange(0, s.len() as int) =~= s);
    lemma_scan_plain(s, 0, 0, None);
    assert(Seq::<char>::empty() + s.subrange(0, 0) + collapse_escapes(s) =~= collapse_escapes(s));
}

} // verus!
