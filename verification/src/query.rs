//! Boolean queries: the propositional AST, its evaluation against a
//! record's MIME type, id and tags, and evaluation against a truth table.

use vstd::prelude::*;
use crate::binio::str_eq;
use crate::tags::{InvertedIndexMap, spec_tag_has_id};
use crate::VennError;
use logic_parser::parsing::ASTNode;

verus! {

/// A propositional expression over predicate identifiers.
pub enum QueryNode {
    Identifier { name: String },
    Literal { value: bool },
    Not { operand: Box<QueryNode> },
    And { left: Box<QueryNode>, right: Box<QueryNode> },
    Or { left: Box<QueryNode>, right: Box<QueryNode> },
    Implies { left: Box<QueryNode>, right: Box<QueryNode> },
    IfAndOnlyIf { left: Box<QueryNode>, right: Box<QueryNode> },
}

/// The first position of `:` in `s`, or -1 if there is none.
pub open spec fn spec_first_colon(s: Seq<char>) -> int
    decreases s.len(),
{
    if s.len() == 0 {
        -1
    } else if s[0] == ':' {
        0
    } else {
        let r = spec_first_colon(s.drop_first());
        if r < 0 {
            -1
        } else {
            r + 1
        }
    }
}

/// What a predicate identifier denotes for a record: `None` when the
/// identifier is ill-formed or its prefix unknown.
pub open spec fn spec_eval_identifier(
    name: Seq<char>,
    mime: Seq<char>,
    id_str: Seq<char>,
    tags: Seq<(Seq<char>, Seq<Seq<char>>)>,
) -> Option<bool> {
    let ci = spec_first_colon(name);
    if ci < 1 || ci == name.len() - 1 {
        None
    } else {
        let prefix = name.subrange(0, ci);
        let value = name.subrange(ci + 1, name.len() as int);
        if prefix == "mime"@ {
            Some(value == "*"@ || value == mime)
        } else if prefix == "id"@ {
            Some(value == "*"@ || value == id_str)
        } else if prefix == "tag"@ {
            Some(value == "*"@ || spec_tag_has_id(tags, value, id_str))
        } else {
            None
        }
    }
}

/// Classical evaluation of a query against one record; `None` when some
/// identifier in the expression cannot be evaluated.
pub open spec fn spec_eval(
    node: QueryNode,
    mime: Seq<char>,
    id_str: Seq<char>,
    tags: Seq<(Seq<char>, Seq<Seq<char>>)>,
) -> Option<bool>
    decreases node,
{
    match node {
        QueryNode::Literal { value } => Some(value),
        QueryNode::Identifier { name } => spec_eval_identifier(name@, mime, id_str, tags),
        QueryNode::Not { operand } => match spec_eval(*operand, mime, id_str, tags) {
            Some(b) => Some(!b),
            None => None,
        },
        QueryNode::And { left, right } => spec_combine(
            spec_eval(*left, mime, id_str, tags),
            spec_eval(*right, mime, id_str, tags),
        ),
        QueryNode::Or { left, right } => spec_combine_or(
            spec_eval(*left, mime, id_str, tags),
            spec_eval(*right, mime, id_str, tags),
        ),
        QueryNode::Implies { left, right } => spec_combine_implies(
            spec_eval(*left, mime, id_str, tags),
            spec_eval(*right, mime, id_str, tags),
        ),
        QueryNode::IfAndOnlyIf { left, right } => spec_combine_iff(
            spec_eval(*left, mime, id_str, tags),
            spec_eval(*right, mime, id_str, tags),
        ),
    }
}

/// Conjunction over possibly failed operands: any failure fails the whole.
pub open spec fn spec_combine(a: Option<bool>, b: Option<bool>) -> Option<bool> {
    match (a, b) {
        (Some(x), Some(y)) => Some(x && y),
        _ => None,
    }
}

/// Disjunction over possibly failed operands.
pub open spec fn spec_combine_or(a: Option<bool>, b: Option<bool>) -> Option<bool> {
    match (a, b) {
        (Some(x), Some(y)) => Some(x || y),
        _ => None,
    }
}

/// Implication over possibly failed operands.
pub open spec fn spec_combine_implies(a: Option<bool>, b: Option<bool>) -> Option<bool> {
    match (a, b) {
        (Some(x), Some(y)) => Some(!x || y),
        _ => None,
    }
}

/// Equivalence over possibly failed operands.
pub open spec fn spec_combine_iff(a: Option<bool>, b: Option<bool>) -> Option<bool> {
    match (a, b) {
        (Some(x), Some(y)) => Some(x == y),
        _ => None,
    }
}

/// A scan that finds `:` at `i` after none before it finds the first one.
proof fn lemma_first_colon_found(s: Seq<char>, i: int)
    requires
        0 <= i < s.len(),
        s[i] == ':',
        forall|j: int| 0 <= j < i ==> s[j] != ':',
    ensures
        spec_first_colon(s) == i,
    decreases i,
{
    if i > 0 {
        let tail = s.drop_first();
        assert forall|j: int| 0 <= j < i - 1 implies tail[j] != ':' by {
            assert(tail[j] == s[j + 1]);
        }
        assert(tail[i - 1] == s[i]);
        lemma_first_colon_found(tail, i - 1);
    }
}

/// A scan that finds no `:` means there is none.
proof fn lemma_first_colon_none(s: Seq<char>)
    requires
        forall|j: int| 0 <= j < s.len() ==> s[j] != ':',
    ensures
        spec_first_colon(s) == -1,
    decreases s.len(),
{
    if s.len() > 0 {
        let tail = s.drop_first();
        assert forall|j: int| 0 <= j < tail.len() implies tail[j] != ':' by {
            assert(tail[j] == s[j + 1]);
        }
        lemma_first_colon_none(tail);
    }
}

/// The first position of `:` in `s`, scanned left to right.
fn first_colon(s: &str) -> (r: Option<usize>)
    ensures
        r matches Some(i) ==> i < s@.len() && spec_first_colon(s@) == i,
        r is None ==> spec_first_colon(s@) == -1,
{
    let n = s.unicode_len();
    let mut i: usize = 0;
    while i < n
        invariant
            0 <= i <= n,
            n == s@.len(),
            forall|j: int| 0 <= j < i ==> s@[j] != ':',
        decreases n - i,
    {
        if s.get_char(i) == ':' {
            proof {
                lemma_first_colon_found(s@, i as int);
            }
            return Some(i);
        }
        i = i + 1;
    }
    proof {
        lemma_first_colon_none(s@);
    }
    None
}

/// Evaluates a query against one record's MIME type, id string and the
/// tag map.
///
/// Fails with `InvalidExpression` exactly when the expression holds an
/// identifier without a properly placed `:` or with an unknown prefix.
pub fn evaluate_record(
    node: &QueryNode,
    mime: &str,
    id_str: &str,
    tags: &InvertedIndexMap,
) -> (r: Result<bool, VennError>)
    requires
        tags.wf(),
    ensures
        r matches Ok(b) ==> spec_eval(*node, mime@, id_str@, tags.spec_entries()) == Some(b),
        r is Err ==> spec_eval(*node, mime@, id_str@, tags.spec_entries()) is None && r == Err::<
            bool,
            VennError,
        >(VennError::InvalidExpression),
    decreases *node,
{
    match node {
        QueryNode::Literal { value } => Ok(*value),
        QueryNode::Not { operand } => {
            match evaluate_record(operand, mime, id_str, tags) {
                Ok(b) => Ok(!b),
                Err(e) => Err(e),
            }
        },
        QueryNode::And { left, right } => {
            let a = evaluate_record(left, mime, id_str, tags);
            let b = evaluate_record(right, mime, id_str, tags);
            match (a, b) {
                (Ok(x), Ok(y)) => Ok(x && y),
                _ => Err(VennError::InvalidExpression),
            }
        },
        QueryNode::Or { left, right } => {
            let a = evaluate_record(left, mime, id_str, tags);
            let b = evaluate_record(right, mime, id_str, tags);
            match (a, b) {
                (Ok(x), Ok(y)) => Ok(x || y),
                _ => Err(VennError::InvalidExpression),
            }
        },
        QueryNode::Implies { left, right } => {
            let a = evaluate_record(left, mime, id_str, tags);
            let b = evaluate_record(right, mime, id_str, tags);
            match (a, b) {
                (Ok(x), Ok(y)) => Ok(!x || y),
                _ => Err(VennError::InvalidExpression),
            }
        },
        QueryNode::IfAndOnlyIf { left, right } => {
            let a = evaluate_record(left, mime, id_str, tags);
            let b = evaluate_record(right, mime, id_str, tags);
            match (a, b) {
                (Ok(x), Ok(y)) => Ok(x == y),
                _ => Err(VennError::InvalidExpression),
            }
        },
        QueryNode::Identifier { name } => {
            let ci = match first_colon(name.as_str()) {
                Some(ci) => ci,
                None => {
                    return Err(VennError::InvalidExpression);
                },
            };
            let n = name.as_str().unicode_len();
            if ci == 0 || ci == n - 1 {
                return Err(VennError::InvalidExpression);
            }
            let prefix = name.as_str().substring_char(0, ci);
            let value = name.as_str().substring_char(ci + 1, n);
            if str_eq(prefix, "mime") {
                Ok(str_eq(value, "*") || str_eq(value, mime))
            } else if str_eq(prefix, "id") {
                Ok(str_eq(value, "*") || str_eq(value, id_str))
            } else if str_eq(prefix, "tag") {
                Ok(str_eq(value, "*") || tags.tag_list_contains(value, id_str))
            } else {
                Err(VennError::InvalidExpression)
            }
        },
    }
}

#[verifier::external_type_specification]
#[verifier::external_body]
pub struct ExASTNode(ASTNode);

/// Whether `c` may continue a predicate atom in a query expression.
fn query_atom_char(c: char) -> bool {
    let cu = c as u32;
    (97 <= cu && cu <= 122) || (65 <= cu && cu <= 90) || (48 <= cu && cu <= 57) || c == '_' || c
        == '-' || c == ':' || c == '*' || c == '/'
}

/// Whether `c` may start a predicate atom.
fn query_atom_start(c: char) -> bool {
    let cu = c as u32;
    (97 <= cu && cu <= 122) || (65 <= cu && cu <= 90)
}

/// Relies on logic_parser's `ASTNode`: converts one boxed subtree.
#[verifier::external_body]
fn convert_boxed(n: Box<ASTNode>) -> Box<QueryNode> {
    Box::new(convert_node(*n))
}

/// Relies on logic_parser's `ASTNode`: moves each variant of the outside
/// tree into the library's own, field for field.
#[verifier::external_body]
fn convert_node(n: ASTNode) -> QueryNode {
    match n {
        ASTNode::Identifier { name } => QueryNode::Identifier { name },
        ASTNode::Literal { value } => QueryNode::Literal { value },
        ASTNode::Not { operand } => QueryNode::Not { operand: convert_boxed(operand) },
        ASTNode::And { left, right } => QueryNode::And { left: convert_boxed(left), right: convert_boxed(right) },
        ASTNode::Or { left, right } => QueryNode::Or { left: convert_boxed(left), right: convert_boxed(right) },
        ASTNode::Implies { left, right } => QueryNode::Implies { left: convert_boxed(left), right: convert_boxed(right) },
        ASTNode::IfAndOnlyIf { left, right } => QueryNode::IfAndOnlyIf { left: convert_boxed(left), right: convert_boxed(right) },
    }
}

/// The expression tree that the query parser yields for a string, or
/// `None` where the string does not lex or parse. The parse is a function
/// of the string alone; which strings parse, and to what tree, is the
/// outside crate's affair.
pub uninterp spec fn ast_of(q: Seq<char>) -> Option<QueryNode>;

/// Relies on logic_parser's `Lexer::with_alphabets`, `Lexer::tokenize`
/// and `Parser::parse`: the outcome is a deterministic function of the
/// query string, named `ast_of`; nothing more is promised of it.
#[verifier::external_body]
pub fn parse_query(query: &str) -> (r: Option<QueryNode>)
    ensures
        r == ast_of(query@),
{
    let mut lexer = logic_parser::lexing::Lexer::with_alphabets(query_atom_char, query_atom_start);
    let tokens = lexer.tokenize(query).ok()?;
    let mut parser = logic_parser::parsing::Parser::new(&tokens);
    parser.parse().ok().map(convert_node)
}

/// Conjunction evaluates operand-wise, and symmetrically for the other
/// connectives; a failed operand fails the whole expression.
pub proof fn lemma_eval_and(
    node: QueryNode,
    mime: Seq<char>,
    id_str: Seq<char>,
    tags: Seq<(Seq<char>, Seq<Seq<char>>)>,
)
    requires
        node matches QueryNode::And { .. },
    ensures
        node matches QueryNode::And { left, right } ==> spec_eval(node, mime, id_str, tags)
            == spec_combine(
            spec_eval(*left, mime, id_str, tags),
            spec_eval(*right, mime, id_str, tags),
        ),
{
}

/// Disjunction evaluates operand-wise.
pub proof fn lemma_eval_or(
    node: QueryNode,
    mime: Seq<char>,
    id_str: Seq<char>,
    tags: Seq<(Seq<char>, Seq<Seq<char>>)>,
)
    requires
        node matches QueryNode::Or { .. },
    ensures
        node matches QueryNode::Or { left, right } ==> spec_eval(node, mime, id_str, tags)
            == spec_combine_or(
            spec_eval(*left, mime, id_str, tags),
            spec_eval(*right, mime, id_str, tags),
        ),
{
}

/// Implication is classical: it evaluates as the negation of the left
/// operand joined with the right.
pub proof fn lemma_eval_implies(
    node: QueryNode,
    mime: Seq<char>,
    id_str: Seq<char>,
    tags: Seq<(Seq<char>, Seq<Seq<char>>)>,
)
    requires
        node matches QueryNode::Implies { .. },
    ensures
        node matches QueryNode::Implies { left, right } ==> spec_eval(node, mime, id_str, tags)
            == spec_combine_implies(
            spec_eval(*left, mime, id_str, tags),
            spec_eval(*right, mime, id_str, tags),
        ),
{
}

/// Equivalence evaluates operand-wise.
pub proof fn lemma_eval_iff(
    node: QueryNode,
    mime: Seq<char>,
    id_str: Seq<char>,
    tags: Seq<(Seq<char>, Seq<Seq<char>>)>,
)
    requires
        node matches QueryNode::IfAndOnlyIf { .. },
    ensures
        node matches QueryNode::IfAndOnlyIf { left, right } ==> spec_eval(node, mime, id_str, tags)
            == spec_combine_iff(
            spec_eval(*left, mime, id_str, tags),
            spec_eval(*right, mime, id_str, tags),
        ),
{
}

/// Double negation evaluates as the operand itself.
pub proof fn lemma_eval_double_negation(
    node: QueryNode,
    mime: Seq<char>,
    id_str: Seq<char>,
    tags: Seq<(Seq<char>, Seq<Seq<char>>)>,
)
    requires
        node matches QueryNode::Not { operand } && *operand matches QueryNode::Not { .. },
    ensures
        node matches QueryNode::Not { operand } ==> (*operand matches QueryNode::Not {
            operand: inner,
        } ==> spec_eval(node, mime, id_str, tags) == spec_eval(*inner, mime, id_str, tags)),
{
    match node {
        QueryNode::Not { operand } => {
            match *operand {
                QueryNode::Not { operand: inner } => {
                    let v = spec_eval(*inner, mime, id_str, tags);
                    if v is Some {
                        assert(spec_eval(*operand, mime, id_str, tags) == Some(!v->Some_0));
                        assert(spec_eval(node, mime, id_str, tags) == Some(!!v->Some_0));
                    } else {
                        assert(spec_eval(*operand, mime, id_str, tags) is None);
                        assert(spec_eval(node, mime, id_str, tags) is None);
                    }
                },
                _ => {},
            }
        },
        _ => {},
    }
}

/// A proposition whose truth is pinned in advance, or one left free.
pub enum PropositionType {
    Fixed(bool),
    Fickle,
}

/// How many propositions of a list are fickle.
pub open spec fn spec_fickle_count(vars: Seq<PropositionType>) -> int
    decreases vars.len(),
{
    if vars.len() == 0 {
        0
    } else {
        spec_fickle_count(vars.drop_last()) + if vars.last() is Fickle {
            1int
        } else {
            0int
        }
    }
}

/// Two to the power `k`.
pub open spec fn spec_pow2(k: int) -> int
    decreases k,
{
    if k <= 0 {
        1
    } else {
        2 * spec_pow2(k - 1)
    }
}

proof fn lemma_pow2_pos(k: int)
    ensures
        spec_pow2(k) >= 1,
    decreases k,
{
    if k > 0 {
        lemma_pow2_pos(k - 1);
    }
}

proof fn lemma_pow2_mono(a: int, b: int)
    requires
        a <= b,
    ensures
        spec_pow2(a) <= spec_pow2(b),
    decreases b - a,
{
    if a < b {
        lemma_pow2_mono(a, b - 1);
        lemma_pow2_pos(b - 1);
    }
}

/// A prefix never holds more fickle propositions than the whole.
proof fn lemma_fickle_prefix_le(vars: Seq<PropositionType>, i: int)
    requires
        0 <= i <= vars.len(),
    ensures
        spec_fickle_count(vars.subrange(0, i)) <= spec_fickle_count(vars),
    decreases vars.len() - i,
{
    if i < vars.len() {
        lemma_fickle_prefix_le(vars, i + 1);
        assert(vars.subrange(0, i + 1).drop_last() =~= vars.subrange(0, i));
    } else {
        assert(vars.subrange(0, i) =~= vars);
    }
}

fn pow2(m: usize) -> (r: usize)
    requires
        m <= 30,
    ensures
        r == spec_pow2(m as int),
{
    let mut p: usize = 1;
    let mut j: usize = 0;
    while j < m
        invariant
            0 <= j <= m <= 30,
            p == spec_pow2(j as int),
        decreases m - j,
    {
        proof {
            lemma_pow2_mono(j as int, 29);
            assert(spec_pow2(29) == 0x2000_0000) by {
                reveal_with_fuel(spec_pow2, 31);
            }
        }
        p = p * 2;
        j = j + 1;
    }
    p
}

/// Enumerates truth assignments for a list of propositions: the fixed
/// ones keep their value, the fickle ones run through every combination.
pub struct VariablesPermutations<'a> {
    variables: &'a [PropositionType],
    fickles_powers: Vec<usize>,
    i: usize,
    max_i: usize,
}

impl<'a> VariablesPermutations<'a> {
    /// The propositions being permuted.
    pub closed spec fn spec_vars(&self) -> Seq<PropositionType> {
        self.variables@
    }

    /// How many assignments were already produced.
    pub closed spec fn spec_index(&self) -> int {
        self.i as int
    }

    /// Internal consistency: one descending power of two per fickle
    /// proposition, and a bound of two to their count.
    pub closed spec fn wf(&self) -> bool {
        &&& self.fickles_powers@.len() == spec_fickle_count(self.spec_vars())
        &&& forall|idx: int|
            0 <= idx < self.fickles_powers@.len() ==> #[trigger] self.fickles_powers@[idx] as int
                == spec_pow2(spec_fickle_count(self.spec_vars()) - 1 - idx)
        &&& self.max_i as int == spec_pow2(spec_fickle_count(self.spec_vars()))
        &&& self.spec_index() <= self.max_i as int
    }

    /// Prepares the enumeration, starting before the first assignment.
    ///
    /// The count of fickle propositions is bounded at 30 because the
    /// enumeration holds two to that count in a `usize`, and the
    /// verifier admits platforms where `usize` is 32 bits wide.
    pub fn new(variables: &'a [PropositionType]) -> (r: VariablesPermutations<'a>)
        requires
            spec_fickle_count(variables@) <= 30,
        ensures
            r.wf(),
            r.spec_vars() == variables@,
            r.spec_index() == 0,
    {
        let n = variables.len();
        let mut k: usize = 0;
        let mut i: usize = 0;
        while i < n
            invariant
                0 <= i <= n,
                n == variables@.len(),
                k == spec_fickle_count(variables@.subrange(0, i as int)),
                k <= i,
            decreases n - i,
        {
            proof {
                assert(variables@.subrange(0, i + 1).drop_last() =~= variables@.subrange(
                    0,
                    i as int,
                ));
            }
            match vstd::slice::slice_index_get(variables, i) {
                PropositionType::Fickle => {
                    k = k + 1;
                },
                PropositionType::Fixed(_) => {},
            }
            i = i + 1;
        }
        proof {
            assert(variables@.subrange(0, n as int) =~= variables@);
        }
        let mut powers: Vec<usize> = Vec::new();
        let mut idx: usize = 0;
        while idx < k
            invariant
                0 <= idx <= k <= 30,
                k == spec_fickle_count(variables@),
                powers@.len() == idx,
                forall|t: int|
                    0 <= t < idx ==> #[trigger] powers@[t] as int == spec_pow2(k - 1 - t),
            decreases k - idx,
        {
            powers.push(pow2(k - 1 - idx));
            idx = idx + 1;
        }
        VariablesPermutations { variables, fickles_powers: powers, i: 0, max_i: pow2(k) }
    }

    /// The next truth assignment: fixed propositions keep their value,
    /// and fickle proposition `t` reads bit `t` (most significant first)
    /// of the enumeration counter. `None` once all are out.
    pub fn next(&mut self) -> (r: Option<Vec<bool>>)
        requires
            old(self).wf(),
        ensures
            final(self).wf(),
            final(self).spec_vars() == old(self).spec_vars(),
            old(self).spec_index() >= spec_pow2(spec_fickle_count(old(self).spec_vars())) ==> r
                is None && *final(self) == *old(self),
            old(self).spec_index() < spec_pow2(spec_fickle_count(old(self).spec_vars())) ==> {
                &&& final(self).spec_index() == old(self).spec_index() + 1
                &&& r matches Some(v) && v@.len() == old(self).spec_vars().len() && forall|j: int|
                    0 <= j < v@.len() ==> #[trigger] v@[j] == spec_assignment(
                        old(self).spec_vars(),
                        old(self).spec_index(),
                        j,
                    )
            },
    {
        if self.i >= self.max_i {
            return None;
        }
        let n = self.variables.len();
        let mut out: Vec<bool> = Vec::new();
        let mut fickle_i: usize = 0;
        let mut j: usize = 0;
        while j < n
            invariant
                0 <= j <= n,
                n == self.spec_vars().len(),
                self.wf(),
                self.i < self.max_i,
                out@.len() == j,
                fickle_i == spec_fickle_count(self.spec_vars().subrange(0, j as int)),
                forall|t: int|
                    0 <= t < j ==> #[trigger] out@[t] == spec_assignment(
                        self.spec_vars(),
                        self.i as int,
                        t,
                    ),
            decreases n - j,
        {
            proof {
                assert(self.spec_vars().subrange(0, j + 1).drop_last() =~= self.spec_vars()
                    .subrange(0, j as int));
                lemma_fickle_prefix_le(self.spec_vars(), j + 1);
            }
            match vstd::slice::slice_index_get(self.variables, j) {
                PropositionType::Fixed(value) => {
                    out.push(*value);
                },
                PropositionType::Fickle => {
                    proof {
                        assert(self.spec_vars().subrange(0, j + 1).last() == self.spec_vars()[
                            j as int
                        ]);
                        assert(spec_fickle_count(self.spec_vars().subrange(0, j + 1)) == fickle_i
                            + 1);
                        assert(fickle_i + 1 <= self.fickles_powers@.len());
                        lemma_pow2_pos(
                            spec_fickle_count(self.spec_vars()) - 1 - fickle_i as int,
                        );
                    }
                    let plen = self.fickles_powers.len();
                    let power = self.fickles_powers[fickle_i];
                    let value = (self.i / power) % 2;
                    out.push(value != 0);
                    fickle_i = fickle_i + 1;
                },
            }
            j = j + 1;
        }
        self.i = self.i + 1;
        Some(out)
    }
}

/// The truth value of proposition `j` in assignment number `i`.
pub open spec fn spec_assignment(vars: Seq<PropositionType>, i: int, j: int) -> bool {
    match vars[j] {
        PropositionType::Fixed(b) => b,
        PropositionType::Fickle => (i / spec_pow2(
            spec_fickle_count(vars) - 1 - spec_fickle_count(vars.subrange(0, j)),
        )) % 2 == 1,
    }
}

/// The value bound to `name` in a truth table, first match first.
pub open spec fn spec_lookup_table(table: Seq<(Seq<char>, bool)>, name: Seq<char>) -> Option<bool>
    decreases table.len(),
{
    if table.len() == 0 {
        None
    } else if table[0].0 == name {
        Some(table[0].1)
    } else {
        spec_lookup_table(table.drop_first(), name)
    }
}

/// Evaluation of an expression against a truth table for its atoms;
/// `None` when an atom is missing from the table.
pub open spec fn spec_eval_table(node: QueryNode, table: Seq<(Seq<char>, bool)>) -> Option<bool>
    decreases node,
{
    match node {
        QueryNode::Literal { value } => Some(value),
        QueryNode::Identifier { name } => spec_lookup_table(table, name@),
        QueryNode::Not { operand } => match spec_eval_table(*operand, table) {
            Some(b) => Some(!b),
            None => None,
        },
        QueryNode::And { left, right } => spec_combine(
            spec_eval_table(*left, table),
            spec_eval_table(*right, table),
        ),
        QueryNode::Or { left, right } => spec_combine_or(
            spec_eval_table(*left, table),
            spec_eval_table(*right, table),
        ),
        QueryNode::Implies { left, right } => spec_combine_implies(
            spec_eval_table(*left, table),
            spec_eval_table(*right, table),
        ),
        QueryNode::IfAndOnlyIf { left, right } => spec_combine_iff(
            spec_eval_table(*left, table),
            spec_eval_table(*right, table),
        ),
    }
}

/// The view of an owned truth table.
pub open spec fn spec_table_view(v: Seq<(String, bool)>) -> Seq<(Seq<char>, bool)> {
    Seq::new(v.len(), |i: int| (v[i].0@, v[i].1))
}

/// A scan that finds `name` at `i` after no earlier match finds the
/// first binding.
proof fn lemma_lookup_found(table: Seq<(Seq<char>, bool)>, name: Seq<char>, i: int)
    requires
        0 <= i < table.len(),
        table[i].0 == name,
        forall|j: int| 0 <= j < i ==> (#[trigger] table[j]).0 != name,
    ensures
        spec_lookup_table(table, name) == Some(table[i].1),
    decreases i,
{
    if i > 0 {
        let tail = table.drop_first();
        assert forall|j: int| 0 <= j < i - 1 implies (#[trigger] tail[j]).0 != name by {
            assert(tail[j] == table[j + 1]);
        }
        assert(tail[i - 1] == table[i]);
        lemma_lookup_found(tail, name, i - 1);
    }
}

/// A scan that finds no binding means there is none.
proof fn lemma_lookup_none(table: Seq<(Seq<char>, bool)>, name: Seq<char>)
    requires
        forall|j: int| 0 <= j < table.len() ==> (#[trigger] table[j]).0 != name,
    ensures
        spec_lookup_table(table, name) is None,
    decreases table.len(),
{
    if table.len() > 0 {
        let tail = table.drop_first();
        assert forall|j: int| 0 <= j < tail.len() implies (#[trigger] tail[j]).0 != name by {
            assert(tail[j] == table[j + 1]);
        }
        lemma_lookup_none(tail, name);
    }
}

/// Looks an atom up in a truth table.
fn lookup_table(table: &Vec<(String, bool)>, name: &str) -> (r: Option<bool>)
    ensures
        r == spec_lookup_table(spec_table_view(table@), name@),
{
    let n = table.len();
    let mut i: usize = 0;
    while i < n
        invariant
            0 <= i <= n,
            n == table@.len(),
            forall|j: int| 0 <= j < i ==> (#[trigger] spec_table_view(table@)[j]).0 != name@,
        decreases n - i,
    {
        if str_eq(table[i].0.as_str(), name) {
            proof {
                assert(spec_table_view(table@)[i as int].0 == name@);
                lemma_lookup_found(spec_table_view(table@), name@, i as int);
            }
            return Some(table[i].1);
        }
        i = i + 1;
    }
    proof {
        lemma_lookup_none(spec_table_view(table@), name@);
    }
    None
}

/// Evaluates an expression against a truth table for its atoms.
///
/// Fails exactly when some atom of the expression has no binding.
pub fn evaluate(tree: &QueryNode, values: &Vec<(String, bool)>) -> (r: Result<bool, ()>)
    ensures
        r matches Ok(b) ==> spec_eval_table(*tree, spec_table_view(values@)) == Some(b),
        r is Err ==> spec_eval_table(*tree, spec_table_view(values@)) is None,
    decreases *tree,
{
    match tree {
        QueryNode::Literal { value } => Ok(*value),
        QueryNode::Identifier { name } => {
            match lookup_table(values, name.as_str()) {
                Some(b) => Ok(b),
                None => Err(()),
            }
        },
        QueryNode::Not { operand } => {
            match evaluate(operand, values) {
                Ok(b) => Ok(!b),
                Err(e) => Err(e),
            }
        },
        QueryNode::And { left, right } => {
            let a = evaluate(left, values);
            let b = evaluate(right, values);
            match (a, b) {
                (Ok(x), Ok(y)) => Ok(x && y),
                _ => Err(()),
            }
        },
        QueryNode::Or { left, right } => {
            let a = evaluate(left, values);
            let b = evaluate(right, values);
            match (a, b) {
                (Ok(x), Ok(y)) => Ok(x || y),
                _ => Err(()),
            }
        },
        QueryNode::Implies { left, right } => {
            let a = evaluate(left, values);
            let b = evaluate(right, values);
            match (a, b) {
                (Ok(x), Ok(y)) => Ok(!x || y),
                _ => Err(()),
            }
        },
        QueryNode::IfAndOnlyIf { left, right } => {
            let a = evaluate(left, values);
            let b = evaluate(right, values);
            match (a, b) {
                (Ok(x), Ok(y)) => Ok(x == y),
                _ => Err(()),
            }
        },
    }
}

} // verus!
