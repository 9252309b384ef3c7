use vstd::prelude::*;
use crate::policy::rules::{
    merge_effects, merge_identities, merge_operations, merge_with, Effect, EffectOrd, Identities,
    Operations, Resources,
};
use crate::errors::Error;
use crate::matcher::ResourceMatcher;
use crate::policy::{Decision, Policy};
use crate::substituter::Substituter;
use crate::validator::{Field, PolicyValidator};
use crate::text::{chars_of, find_pair_from, is_variable, lemma_find_pair, pair_at};

verus! {

/// The effect a statement declares.
#[derive(Debug, Clone, Copy, PartialEq, Eq, Structural)]
pub enum StatementEffect {
    Allow,
    Deny,
}

/// One rule declaration: every listed identity may (or may not) perform every
/// listed operation on every listed resource. `order` is the statement's
/// position in its policy: the lower, the higher its priority.
#[derive(Debug)]
pub struct Statement {
    pub order: usize,
    pub description: String,
    pub effect: StatementEffect,
    pub identities: Vec<String>,
    pub operations: Vec<String>,
    pub resources: Vec<String>,
}

/// Whether `x` is among the first `n` texts of `v`.
pub open spec fn listed(v: Seq<String>, n: int, x: Seq<char>) -> bool {
    exists|j: int| 0 <= j < n && j < v.len() && (#[trigger] v[j])@ == x
}

/// The prioritized effect that statement `st` gives its rules at priority `p`.
pub open spec fn effect_of(st: Statement, p: usize) -> EffectOrd {
    EffectOrd {
        order: p,
        effect: match st.effect {
            StatementEffect::Allow => Effect::Allow,
            StatementEffect::Deny => Effect::Deny,
        },
    }
}

/// Whether a rule with these three patterns belongs to the variable index.
pub open spec fn lands_variable(identity: Seq<char>, operation: Seq<char>, resource: Seq<char>) -> bool {
    is_variable(identity) || is_variable(operation) || is_variable(resource)
}

/// The resources of `st` that go to the variable index (`variable`) or to the
/// static one, below patterns that held a variable already (`above`) or not.
pub open spec fn resource_part(st: Statement, p: usize, above: bool, variable: bool) -> Map<
    Seq<char>,
    EffectOrd,
> {
    Map::new(
        |r: Seq<char>|
            listed(st.resources@, st.resources@.len() as int, r) && (above || is_variable(r))
                == variable,
        |r: Seq<char>| effect_of(st, p),
    )
}

/// The operations of `st`, each with its resources, that go to the variable
/// index (`variable`) or to the static one; operations left with no resource
/// are left out.
pub open spec fn operation_part(st: Statement, p: usize, above: bool, variable: bool) -> Map<
    Seq<char>,
    Map<Seq<char>, EffectOrd>,
> {
    Map::new(
        |o: Seq<char>|
            listed(st.operations@, st.operations@.len() as int, o) && resource_part(
                st,
                p,
                above || is_variable(o),
                variable,
            ) != Map::<Seq<char>, EffectOrd>::empty(),
        |o: Seq<char>| resource_part(st, p, above || is_variable(o), variable),
    )
}

/// The identities of `st`, each with its operations, that go to the variable
/// index (`variable`) or to the static one.
pub open spec fn identity_part(st: Statement, p: usize, variable: bool) -> Map<
    Seq<char>,
    Map<Seq<char>, Map<Seq<char>, EffectOrd>>,
> {
    Map::new(
        |i: Seq<char>|
            listed(st.identities@, st.identities@.len() as int, i) && operation_part(
                st,
                p,
                is_variable(i),
                variable,
            ) != Map::<Seq<char>, Map<Seq<char>, EffectOrd>>::empty(),
        |i: Seq<char>| operation_part(st, p, is_variable(i), variable),
    )
}

impl Statement {
    /// The prioritized effect of this statement's rules.
    pub fn effect_ord(&self) -> (r: EffectOrd)
        ensures
            r == effect_of(*self, self.order),
    {
        match self.effect {
            StatementEffect::Allow => EffectOrd::new(Effect::Allow, self.order),
            StatementEffect::Deny => EffectOrd::new(Effect::Deny, self.order),
        }
    }
}

/// Whether `value` holds a variable marker (`{{`, later followed by `}}`).
pub fn is_variable_rule(value: &str) -> (r: bool)
    ensures
        r == is_variable(value@),
{
    let v = chars_of(value);
    proof {
        lemma_find_pair(v@, 0, '{');
    }
    match find_pair_from(&v, 0, '{') {
        None => false,
        Some(i) => {
            proof {
                lemma_find_pair(v@, i + 2, '}');
            }
            match find_pair_from(&v, i + 2, '}') {
                Some(j) => {
                    assert(pair_at(v@, i as int, '{') && pair_at(v@, j as int, '}'));
                    true
                },
                None => false,
            }
        },
    }
}

/// Splits the statement's resources between the static and the variable index.
fn process_resources(statement: &Statement) -> (r: (Resources, Resources))
    ensures
        r.0.wf(),
        r.1.wf(),
        r.0@ == resource_part(*statement, statement.order, false, false),
        r.1@ == resource_part(*statement, statement.order, false, true),
{
    let ghost st = *statement;
    let ghost eff = effect_of(st, st.order);
    let mut static_res = Resources::new();
    let mut variable_res = Resources::new();
    let mut k: usize = 0;
    while k < statement.resources.len()
        invariant
            k <= statement.resources@.len(),
            st == *statement,
            eff == effect_of(st, st.order),
            static_res.wf(),
            variable_res.wf(),
            static_res@ == Map::new(
                |r: Seq<char>| listed(st.resources@, k as int, r) && !is_variable(r),
                |r: Seq<char>| eff,
            ),
            variable_res@ == Map::new(
                |r: Seq<char>| listed(st.resources@, k as int, r) && is_variable(r),
                |r: Seq<char>| eff,
            ),
        decreases statement.resources.len() - k,
    {
        let resource = statement.resources[k].as_str();
        let effect = statement.effect_ord();
        let ghost res = resource@;
        proof {
            assert forall|x: Seq<char>|
                #[trigger] listed(st.resources@, k + 1, x) == (listed(st.resources@, k as int, x) || x == res) by {
                lemma_listed_next(st.resources@, k as int, x);
            }
        }
        let ghost old_static = static_res@;
        let ghost old_variable = variable_res@;
        if is_variable_rule(resource) {
            variable_res.insert(resource, effect);
        } else {
            static_res.insert(resource, effect);
        }
        proof {
            let target_static = Map::new(
                |r: Seq<char>| listed(st.resources@, k + 1, r) && !is_variable(r),
                |r: Seq<char>| eff,
            );
            let target_variable = Map::new(
                |r: Seq<char>| listed(st.resources@, k + 1, r) && is_variable(r),
                |r: Seq<char>| eff,
            );
            if is_variable(res) {
                assert(static_res@ =~= target_static);
                assert(variable_res@ =~= old_variable.insert(res, eff));
                assert(variable_res@ =~= target_variable);
            } else {
                assert(variable_res@ =~= target_variable);
                assert(static_res@ =~= old_static.insert(res, eff));
                assert(static_res@ =~= target_static);
            }
        }
        k = k + 1;
    }
    proof {
        assert(static_res@ =~= resource_part(st, st.order, false, false));
        assert(variable_res@ =~= resource_part(st, st.order, false, true));
    }
    (static_res, variable_res)
}

pub proof fn lemma_listed_next(v: Seq<String>, k: int, x: Seq<char>)
    requires
        0 <= k < v.len(),
    ensures
        listed(v, k + 1, x) == (listed(v, k, x) || v[k]@ == x),
{
    if listed(v, k + 1, x) && !listed(v, k, x) {
        let j = choose|j: int| 0 <= j < k + 1 && j < v.len() && (#[trigger] v[j])@ == x;
        assert(j == k);
    }
}

proof fn lemma_nonempty_witness<V>(m: Map<Seq<char>, V>)
    ensures
        m != Map::<Seq<char>, V>::empty() <==> exists|k: Seq<char>| m.contains_key(k),
{
    if !exists|k: Seq<char>| m.contains_key(k) {
        assert(m =~= Map::<Seq<char>, V>::empty());
    }
}

/// A union is empty exactly when both parts are.
proof fn lemma_merge_nonempty<V>(a: Map<Seq<char>, V>, b: Map<Seq<char>, V>, f: spec_fn(V, V) -> V)
    ensures
        (merge_with(a, b, f) != Map::<Seq<char>, V>::empty()) == (a != Map::<Seq<char>, V>::empty()
            || b != Map::<Seq<char>, V>::empty()),
{
    lemma_nonempty_witness(a);
    lemma_nonempty_witness(b);
    lemma_nonempty_witness(merge_with(a, b, f));
    if merge_with(a, b, f) != Map::<Seq<char>, V>::empty() {
        let k = choose|k: Seq<char>| merge_with(a, b, f).contains_key(k);
        assert(a.contains_key(k) || b.contains_key(k));
    }
    if a != Map::<Seq<char>, V>::empty() {
        let k = choose|k: Seq<char>| a.contains_key(k);
        assert(merge_with(a, b, f).contains_key(k));
    }
    if b != Map::<Seq<char>, V>::empty() {
        let k = choose|k: Seq<char>| b.contains_key(k);
        assert(merge_with(a, b, f).contains_key(k));
    }
}

proof fn lemma_merge_effects_idem(m: Map<Seq<char>, EffectOrd>)
    ensures
        merge_effects(m, m) == m,
{
    assert(merge_effects(m, m) =~= m);
}

proof fn lemma_merge_operations_idem(m: Map<Seq<char>, Map<Seq<char>, EffectOrd>>)
    ensures
        merge_operations(m, m) == m,
{
    assert forall|k: Seq<char>| m.contains_key(k) implies merge_operations(m, m)[k] == m[k] by {
        lemma_merge_effects_idem(m[k]);
    }
    assert(merge_operations(m, m) =~= m);
}

proof fn lemma_merge_with_empty_left<V>(b: Map<Seq<char>, V>, f: spec_fn(V, V) -> V)
    ensures
        merge_with(Map::empty(), b, f) == b,
{
    assert(merge_with(Map::empty(), b, f) =~= b);
}

/// Below a variable pattern every resource goes to the variable index.
proof fn lemma_resource_union(st: Statement, p: usize)
    ensures
        merge_effects(resource_part(st, p, false, false), resource_part(st, p, false, true))
            == resource_part(st, p, true, true),
        resource_part(st, p, true, false) == Map::<Seq<char>, EffectOrd>::empty(),
{
    let a = resource_part(st, p, false, false);
    let b = resource_part(st, p, false, true);
    assert forall|k: Seq<char>| a.contains_key(k) && b.contains_key(k) implies false by {}
    assert(merge_effects(a, b) =~= resource_part(st, p, true, true));
    assert(resource_part(st, p, true, false) =~= Map::<Seq<char>, EffectOrd>::empty());
}

/// Below a variable identity every operation, with all its resources, goes to
/// the variable index.
proof fn lemma_operation_union(st: Statement, p: usize)
    ensures
        merge_operations(operation_part(st, p, false, false), operation_part(st, p, false, true))
            == operation_part(st, p, true, true),
        operation_part(st, p, true, false) == Map::<Seq<char>, Map<Seq<char>, EffectOrd>>::empty(),
{
    let a = operation_part(st, p, false, false);
    let b = operation_part(st, p, false, true);
    let all = resource_part(st, p, true, true);
    let empty = Map::<Seq<char>, EffectOrd>::empty();
    lemma_resource_union(st, p);
    let f = |x: EffectOrd, y: EffectOrd| x.merged(y);
    lemma_merge_with_empty_left(resource_part(st, p, false, true), f);
    crate::policy::rules::lemma_merge_with_empty(resource_part(st, p, false, false), f);
    lemma_merge_with_empty_left(empty, f);
    let lhs = merge_operations(a, b);
    let rhs = operation_part(st, p, true, true);
    assert forall|o: Seq<char>| #[trigger] lhs.contains_key(o) == rhs.contains_key(o) by {
        if !is_variable(o) {
            lemma_merge_nonempty(resource_part(st, p, false, false), resource_part(st, p, false, true), f);
        }
    }
    assert forall|o: Seq<char>| lhs.contains_key(o) implies #[trigger] lhs[o] == rhs[o] by {
        if !is_variable(o) {
            if resource_part(st, p, false, false) == empty {
                assert(merge_effects(empty, resource_part(st, p, false, true)) == resource_part(st, p, false, true));
            }
        }
    }
    assert(lhs =~= rhs);
    assert(operation_part(st, p, true, false) =~= Map::<Seq<char>, Map<Seq<char>, EffectOrd>>::empty());
}

/// Splits the statement's operations, each with its resources, between the
/// static and the variable index. An operation with a variable takes all its
/// resources to the variable index.
fn process_operations(statement: &Statement) -> (r: (Operations, Operations))
    ensures
        r.0.wf(),
        r.1.wf(),
        r.0@ == operation_part(*statement, statement.order, false, false),
        r.1@ == operation_part(*statement, statement.order, false, true),
{
    let ghost st = *statement;
    let ghost p = st.order;
    let mut static_ops = Operations::new();
    let mut variable_ops = Operations::new();
    let mut k: usize = 0;
    proof {
        assert(static_ops@ =~= Map::new(
            |o: Seq<char>| listed(st.operations@, 0, o) && resource_part(st, p, is_variable(o), false)
                != Map::<Seq<char>, EffectOrd>::empty(),
            |o: Seq<char>| resource_part(st, p, is_variable(o), false),
        ));
        assert(variable_ops@ =~= Map::new(
            |o: Seq<char>| listed(st.operations@, 0, o) && resource_part(st, p, is_variable(o), true)
                != Map::<Seq<char>, EffectOrd>::empty(),
            |o: Seq<char>| resource_part(st, p, is_variable(o), true),
        ));
    }
    while k < statement.operations.len()
        invariant
            k <= statement.operations@.len(),
            st == *statement,
            p == st.order,
            static_ops.wf(),
            variable_ops.wf(),
            static_ops@ == Map::new(
                |o: Seq<char>| listed(st.operations@, k as int, o) && resource_part(st, p, is_variable(o), false)
                    != Map::<Seq<char>, EffectOrd>::empty(),
                |o: Seq<char>| resource_part(st, p, is_variable(o), false),
            ),
            variable_ops@ == Map::new(
                |o: Seq<char>| listed(st.operations@, k as int, o) && resource_part(st, p, is_variable(o), true)
                    != Map::<Seq<char>, EffectOrd>::empty(),
                |o: Seq<char>| resource_part(st, p, is_variable(o), true),
            ),
        decreases statement.operations.len() - k,
    {
        let operation = statement.operations[k].as_str();
        let ghost op = operation@;
        let ghost old_static = static_ops@;
        let ghost old_variable = variable_ops@;
        proof {
            lemma_resource_union(st, p);
            assert forall|x: Seq<char>|
                #[trigger] listed(st.operations@, k + 1, x) == (listed(st.operations@, k as int, x) || x == op) by {
                lemma_listed_next(st.operations@, k as int, x);
            }
            lemma_merge_effects_idem(resource_part(st, p, is_variable(op), false));
            lemma_merge_effects_idem(resource_part(st, p, is_variable(op), true));
        }
        let (static_res, variable_res) = process_resources(statement);
        if is_variable_rule(operation) {
            // the operation has variables: all its resources need substitution.
            let mut all = static_res;
            all.merge(variable_res);
            variable_ops.insert(operation, all);
        } else {
            // a literal operation: literal resources stay static.
            static_ops.insert(operation, static_res);
            variable_ops.insert(operation, variable_res);
        }
        proof {
            assert(static_ops@ =~= Map::new(
                |o: Seq<char>| listed(st.operations@, k + 1, o) && resource_part(st, p, is_variable(o), false)
                    != Map::<Seq<char>, EffectOrd>::empty(),
                |o: Seq<char>| resource_part(st, p, is_variable(o), false),
            ));
            assert(variable_ops@ =~= Map::new(
                |o: Seq<char>| listed(st.operations@, k + 1, o) && resource_part(st, p, is_variable(o), true)
                    != Map::<Seq<char>, EffectOrd>::empty(),
                |o: Seq<char>| resource_part(st, p, is_variable(o), true),
            ));
        }
        k = k + 1;
    }
    proof {
        assert(static_ops@ =~= operation_part(st, p, false, false));
        assert(variable_ops@ =~= operation_part(st, p, false, true));
    }
    (static_ops, variable_ops)
}

/// Splits the statement's identities, each with its operations, between the
/// static and the variable index. An identity with a variable takes all its
/// operations to the variable index.
fn process_identities(statement: &Statement) -> (r: (Identities, Identities))
    ensures
        r.0.wf(),
        r.1.wf(),
        r.0@ == identity_part(*statement, statement.order, false),
        r.1@ == identity_part(*statement, statement.order, true),
{
    let ghost st = *statement;
    let ghost p = st.order;
    let mut static_ids = Identities::new();
    let mut variable_ids = Identities::new();
    let mut k: usize = 0;
    proof {
        assert(static_ids@ =~= Map::new(
            |i: Seq<char>| listed(st.identities@, 0, i) && operation_part(st, p, is_variable(i), false)
                != Map::<Seq<char>, Map<Seq<char>, EffectOrd>>::empty(),
            |i: Seq<char>| operation_part(st, p, is_variable(i), false),
        ));
        assert(variable_ids@ =~= Map::new(
            |i: Seq<char>| listed(st.identities@, 0, i) && operation_part(st, p, is_variable(i), true)
                != Map::<Seq<char>, Map<Seq<char>, EffectOrd>>::empty(),
            |i: Seq<char>| operation_part(st, p, is_variable(i), true),
        ));
    }
    while k < statement.identities.len()
        invariant
            k <= statement.identities@.len(),
            st == *statement,
            p == st.order,
            static_ids.wf(),
            variable_ids.wf(),
            static_ids@ == Map::new(
                |i: Seq<char>| listed(st.identities@, k as int, i) && operation_part(st, p, is_variable(i), false)
                    != Map::<Seq<char>, Map<Seq<char>, EffectOrd>>::empty(),
                |i: Seq<char>| operation_part(st, p, is_variable(i), false),
            ),
            variable_ids@ == Map::new(
                |i: Seq<char>| listed(st.identities@, k as int, i) && operation_part(st, p, is_variable(i), true)
                    != Map::<Seq<char>, Map<Seq<char>, EffectOrd>>::empty(),
                |i: Seq<char>| operation_part(st, p, is_variable(i), true),
            ),
        decreases statement.identities.len() - k,
    {
        let identity = statement.identities[k].as_str();
        let ghost id = identity@;
        proof {
            lemma_operation_union(st, p);
            assert forall|x: Seq<char>|
                #[trigger] listed(st.identities@, k + 1, x) == (listed(st.identities@, k as int, x) || x == id) by {
                lemma_listed_next(st.identities@, k as int, x);
            }
            lemma_merge_operations_idem(operation_part(st, p, is_variable(id), false));
            lemma_merge_operations_idem(operation_part(st, p, is_variable(id), true));
        }
        let (static_ops, variable_ops) = process_operations(statement);
        if is_variable_rule(identity) {
            // the identity has variables: the whole operation subtree
            // goes to the variable rules.
            let mut all = static_ops;
            all.merge(variable_ops);
            variable_ids.insert(identity, all);
        } else {
            // a literal identity: divide its operations between the two.
            static_ids.insert(identity, static_ops);
            variable_ids.insert(identity, variable_ops);
        }
        proof {
            assert(static_ids@ =~= Map::new(
                |i: Seq<char>| listed(st.identities@, k + 1, i) && operation_part(st, p, is_variable(i), false)
                    != Map::<Seq<char>, Map<Seq<char>, EffectOrd>>::empty(),
                |i: Seq<char>| operation_part(st, p, is_variable(i), false),
            ));
            assert(variable_ids@ =~= Map::new(
                |i: Seq<char>| listed(st.identities@, k + 1, i) && operation_part(st, p, is_variable(i), true)
                    != Map::<Seq<char>, Map<Seq<char>, EffectOrd>>::empty(),
                |i: Seq<char>| operation_part(st, p, is_variable(i), true),
            ));
        }
        k = k + 1;
    }
    proof {
        assert(static_ids@ =~= identity_part(st, p, false));
        assert(variable_ids@ =~= identity_part(st, p, true));
    }
    (static_ids, variable_ids)
}

/// Adds the rules of one statement to the static and the variable rules.
fn process_statement(statement: &Statement, static_rules: &mut Identities, variable_rules: &mut Identities)
    requires
        old(static_rules).wf(),
        old(variable_rules).wf(),
    ensures
        final(static_rules).wf(),
        final(variable_rules).wf(),
        final(static_rules)@ == merge_identities(
            old(static_rules)@,
            identity_part(*statement, statement.order, false),
        ),
        final(variable_rules)@ == merge_identities(
            old(variable_rules)@,
            identity_part(*statement, statement.order, true),
        ),
{
    let (static_ids, variable_ids) = process_identities(statement);
    static_rules.merge(static_ids);
    variable_rules.merge(variable_ids);
}

/// The statements, each with its position as its order.
pub open spec fn numbered(stmts: Seq<Statement>) -> Seq<Statement> {
    Seq::new(
        stmts.len(),
        |j: int|
            Statement {
                order: j as usize,
                description: stmts[j].description,
                effect: stmts[j].effect,
                identities: stmts[j].identities,
                operations: stmts[j].operations,
                resources: stmts[j].resources,
            },
    )
}

/// The rules of the first `n` statements for the variable index (`variable`)
/// or the static one, merged in order.
pub open spec fn compiled(stmts: Seq<Statement>, n: int, variable: bool) -> Map<
    Seq<char>,
    Map<Seq<char>, Map<Seq<char>, EffectOrd>>,
>
    decreases n,
{
    if n <= 0 {
        Map::empty()
    } else {
        merge_identities(
            compiled(stmts, n - 1, variable),
            identity_part(stmts[n - 1], stmts[n - 1].order, variable),
        )
    }
}

/// The first refusal among `values`, from position `i` on, as fields of kind `field`.
pub open spec fn first_refusal<V: PolicyValidator>(
    validator: V,
    field: Field,
    values: Seq<String>,
    i: int,
) -> Result<(), Error>
    decreases values.len() - i,
{
    if i < 0 || i >= values.len() {
        Ok(())
    } else {
        match validator.spec_validate(field, values[i]@) {
            Err(e) => Err(e),
            Ok(()) => first_refusal(validator, field, values, i + 1),
        }
    }
}

/// The first refusal among the field values of a statement: its identities,
/// operations and resources, then its description.
pub open spec fn statement_refusal<V: PolicyValidator>(validator: V, st: Statement) -> Result<(), Error> {
    match first_refusal(validator, Field::Identities, st.identities@, 0) {
        Err(e) => Err(e),
        Ok(()) => match first_refusal(validator, Field::Operations, st.operations@, 0) {
            Err(e) => Err(e),
            Ok(()) => match first_refusal(validator, Field::Resources, st.resources@, 0) {
                Err(e) => Err(e),
                Ok(()) => validator.spec_validate(Field::Description, st.description@),
            },
        },
    }
}

/// The first refusal among the statements from position `i` on.
pub open spec fn policy_refusal<V: PolicyValidator>(validator: V, stmts: Seq<Statement>, i: int) -> Result<
    (),
    Error,
>
    decreases stmts.len() - i,
{
    if i < 0 || i >= stmts.len() {
        Ok(())
    } else {
        match statement_refusal(validator, stmts[i]) {
            Err(e) => Err(e),
            Ok(()) => policy_refusal(validator, stmts, i + 1),
        }
    }
}

fn validate_values<V: PolicyValidator>(validator: &V, field: Field, values: &Vec<String>) -> (r: Result<
    (),
    Error,
>)
    ensures
        r == first_refusal(*validator, field, values@, 0),
{
    let mut i: usize = 0;
    while i < values.len()
        invariant
            i <= values@.len(),
            first_refusal(*validator, field, values@, 0) == first_refusal(
                *validator,
                field,
                values@,
                i as int,
            ),
        decreases values.len() - i,
    {
        validator.validate(field, values[i].as_str())?;
        i = i + 1;
    }
    Ok(())
}

fn validate_statement<V: PolicyValidator>(validator: &V, statement: &Statement) -> (r: Result<(), Error>)
    ensures
        r == statement_refusal(*validator, *statement),
{
    validate_values(validator, Field::Identities, &statement.identities)?;
    validate_values(validator, Field::Operations, &statement.operations)?;
    validate_values(validator, Field::Resources, &statement.resources)?;
    validator.validate(Field::Description, statement.description.as_str())
}

/// Collects what a policy is built from: the validator, the matcher, the
/// substituter, the default decision, and the policy definition as text.
pub struct PolicyBuilder<V, M, S> {
    validator: Option<V>,
    matcher: Option<M>,
    substituter: Option<S>,
    json: String,
    default_decision: Decision,
}

impl<V, M, S> PolicyBuilder<V, M, S> {
    pub closed spec fn spec_validator(&self) -> Option<V> {
        self.validator
    }

    pub closed spec fn spec_matcher(&self) -> Option<M> {
        self.matcher
    }

    pub closed spec fn spec_substituter(&self) -> Option<S> {
        self.substituter
    }

    pub closed spec fn spec_json(&self) -> Seq<char> {
        self.json@
    }

    pub closed spec fn spec_default_decision(&self) -> Decision {
        self.default_decision
    }
}

impl<V: PolicyValidator, M: ResourceMatcher, S: Substituter<Context = M::Context>> PolicyBuilder<V, M, S> {
    /// A builder for the policy defined by `json`, with nothing configured
    /// and `Denied` as the default decision.
    pub fn from_json(json: &str) -> (r: Self)
        ensures
            r.spec_json() == json@,
            r.spec_validator() is None,
            r.spec_matcher() is None,
            r.spec_substituter() is None,
            r.spec_default_decision() == Decision::Denied,
    {
        Self {
            json: json.to_owned(),
            validator: None,
            matcher: None,
            substituter: None,
            default_decision: Decision::Denied,
        }
    }

    pub fn with_validator(self, validator: V) -> (r: Self)
        ensures
            r.spec_validator() == Some(validator),
            r.spec_matcher() == self.spec_matcher(),
            r.spec_substituter() == self.spec_substituter(),
            r.spec_json() == self.spec_json(),
            r.spec_default_decision() == self.spec_default_decision(),
    {
        let mut b = self;
        b.validator = Some(validator);
        b
    }

    pub fn with_matcher(self, matcher: M) -> (r: Self)
        ensures
            r.spec_validator() == self.spec_validator(),
            r.spec_matcher() == Some(matcher),
            r.spec_substituter() == self.spec_substituter(),
            r.spec_json() == self.spec_json(),
            r.spec_default_decision() == self.spec_default_decision(),
    {
        let mut b = self;
        b.matcher = Some(matcher);
        b
    }

    pub fn with_substituter(self, substituter: S) -> (r: Self)
        ensures
            r.spec_validator() == self.spec_validator(),
            r.spec_matcher() == self.spec_matcher(),
            r.spec_substituter() == Some(substituter),
            r.spec_json() == self.spec_json(),
            r.spec_default_decision() == self.spec_default_decision(),
    {
        let mut b = self;
        b.substituter = Some(substituter);
        b
    }

    pub fn with_default_decision(self, decision: Decision) -> (r: Self)
        ensures
            r.spec_validator() == self.spec_validator(),
            r.spec_matcher() == self.spec_matcher(),
            r.spec_substituter() == self.spec_substituter(),
            r.spec_json() == self.spec_json(),
            r.spec_default_decision() == decision,
    {
        let mut b = self;
        b.default_decision = decision;
        b
    }

    /// The policy definition this builder was made from.
    pub fn json(&self) -> (r: &str)
        ensures
            r@ == self.spec_json(),
    {
        self.json.as_str()
    }

    /// Compiles the statements read from the policy definition, in their
    /// order, into a policy. Each statement's order becomes its position.
    /// Fails when the matcher or the substituter is missing, or when the
    /// validator refuses a field value.
    pub fn build(self, statements: Vec<Statement>) -> (r: Result<Policy<M, S>, Error>)
        ensures
            (self.spec_matcher() is None || self.spec_substituter() is None) ==> (r matches Err(e)
                && e is ConfigurationError),
            (self.spec_matcher() is Some && self.spec_substituter() is Some) ==> match self.spec_validator() {
                Some(v) if policy_refusal(v, statements@, 0) is Err => r == Err::<Policy<M, S>, Error>(
                    policy_refusal(v, statements@, 0)->Err_0,
                ),
                _ => r is Ok,
            },
            r matches Ok(policy) ==> {
                &&& policy.spec_matcher() == self.spec_matcher()->Some_0
                &&& policy.spec_substituter() == self.spec_substituter()->Some_0
                &&& policy.spec_default_decision() == self.spec_default_decision()
                &&& policy.spec_static_rules().wf()
                &&& policy.spec_variable_rules().wf()
                &&& policy.spec_static_rules()@ == compiled(
                    numbered(statements@),
                    statements@.len() as int,
                    false,
                )
                &&& policy.spec_variable_rules()@ == compiled(
                    numbered(statements@),
                    statements@.len() as int,
                    true,
                )
            },
    {
        let ghost configured = self.spec_matcher() is Some && self.spec_substituter() is Some;
        let ghost chosen = self.spec_validator();
        let PolicyBuilder { validator, matcher, substituter, json: _, default_decision } = self;
        let (matcher, substituter) = match (matcher, substituter) {
            (Some(m), Some(s)) => (m, s),
            _ => {
                return Err(Error::ConfigurationError("A matcher and a substituter are needed".to_owned()));
            },
        };
        if let Some(v) = &validator {
            let mut i: usize = 0;
            while i < statements.len()
                invariant
                    i <= statements@.len(),
                    policy_refusal(*v, statements@, 0) == policy_refusal(*v, statements@, i as int),
                    configured,
                    configured == (self.spec_matcher() is Some && self.spec_substituter() is Some),
                    chosen == self.spec_validator(),
                    chosen == Some(*v),
                decreases statements.len() - i,
            {
                validate_statement(v, &statements[i])?;
                i = i + 1;
            }
        }
        let ghost given = statements@;
        let mut statements = statements;
        let mut i: usize = 0;
        while i < statements.len()
            invariant
                i <= statements@.len(),
                statements@.len() == given.len(),
                forall|j: int| 0 <= j < i ==> #[trigger] statements@[j] == numbered(given)[j],
                forall|j: int| i <= j < given.len() ==> #[trigger] statements@[j] == given[j],
            decreases statements.len() - i,
        {
            statements[i].order = i;
            i = i + 1;
        }
        assert(statements@ =~= numbered(given));
        let mut static_rules = Identities::new();
        let mut variable_rules = Identities::new();
        let mut i: usize = 0;
        while i < statements.len()
            invariant
                i <= statements@.len(),
                statements@ == numbered(given),
                static_rules.wf(),
                variable_rules.wf(),
                static_rules@ == compiled(statements@, i as int, false),
                variable_rules@ == compiled(statements@, i as int, true),
            decreases statements.len() - i,
        {
            process_statement(&statements[i], &mut static_rules, &mut variable_rules);
            i = i + 1;
        }
        Ok(Policy::new(default_decision, matcher, substituter, static_rules, variable_rules))
    }
}

/// Whether statement `st` lists the identity, the operation and the resource.
pub open spec fn declares(st: Statement, identity: Seq<char>, operation: Seq<char>, resource: Seq<char>) -> bool {
    &&& listed(st.identities@, st.identities@.len() as int, identity)
    &&& listed(st.operations@, st.operations@.len() as int, operation)
    &&& listed(st.resources@, st.resources@.len() as int, resource)
}

/// The entry that nested rules hold for one (identity, operation, resource) key.
pub open spec fn rule_at(
    rules: Map<Seq<char>, Map<Seq<char>, Map<Seq<char>, EffectOrd>>>,
    identity: Seq<char>,
    operation: Seq<char>,
    resource: Seq<char>,
) -> Option<EffectOrd> {
    if rules.contains_key(identity) && rules[identity].contains_key(operation)
        && rules[identity][operation].contains_key(resource) {
        Some(rules[identity][operation][resource])
    } else {
        None
    }
}

/// What a key holds after merging: the entry with the lower order, where both hold one.
pub open spec fn combine_rule(a: Option<EffectOrd>, b: Option<EffectOrd>) -> Option<EffectOrd> {
    match (a, b) {
        (Some(x), Some(y)) => Some(x.merged(y)),
        (Some(x), None) => Some(x),
        (None, y) => y,
    }
}

/// A statement's part for one index holds exactly the keys it declares that
/// belong to that index.
proof fn lemma_identity_part_rule(
    st: Statement,
    p: usize,
    variable: bool,
    identity: Seq<char>,
    operation: Seq<char>,
    resource: Seq<char>,
)
    ensures
        rule_at(identity_part(st, p, variable), identity, operation, resource) == (if declares(
            st,
            identity,
            operation,
            resource,
        ) && lands_variable(identity, operation, resource) == variable {
            Some(effect_of(st, p))
        } else {
            None
        }),
{
    let above = is_variable(identity);
    let below = above || is_variable(operation);
    let rp = resource_part(st, p, below, variable);
    let op = operation_part(st, p, above, variable);
    if declares(st, identity, operation, resource) && lands_variable(identity, operation, resource)
        == variable {
        assert(rp.contains_key(resource));
        lemma_nonempty_witness(rp);
        assert(op.contains_key(operation));
        lemma_nonempty_witness(op);
        assert(identity_part(st, p, variable).contains_key(identity));
    }
}

/// Merging nested rules merges the entries key by key.
proof fn lemma_merge_rule(
    a: Map<Seq<char>, Map<Seq<char>, Map<Seq<char>, EffectOrd>>>,
    b: Map<Seq<char>, Map<Seq<char>, Map<Seq<char>, EffectOrd>>>,
    identity: Seq<char>,
    operation: Seq<char>,
    resource: Seq<char>,
)
    ensures
        rule_at(merge_identities(a, b), identity, operation, resource) == combine_rule(
            rule_at(a, identity, operation, resource),
            rule_at(b, identity, operation, resource),
        ),
{
    let m = merge_identities(a, b);
    if a.contains_key(identity) && b.contains_key(identity) {
        assert(m[identity] == merge_operations(a[identity], b[identity]));
        let oa = a[identity];
        let ob = b[identity];
        if oa.contains_key(operation) && ob.contains_key(operation) {
            assert(m[identity][operation] == merge_effects(oa[operation], ob[operation]));
        }
    }
}

/// The first statement that declares a key.
proof fn first_declaring(
    stmts: Seq<Statement>,
    k: int,
    identity: Seq<char>,
    operation: Seq<char>,
    resource: Seq<char>,
) -> (first: int)
    requires
        0 <= k < stmts.len(),
        declares(stmts[k], identity, operation, resource),
    ensures
        0 <= first <= k,
        declares(stmts[first], identity, operation, resource),
        forall|j: int| 0 <= j < first ==> !declares(#[trigger] stmts[j], identity, operation, resource),
    decreases k,
{
    if exists|j: int| 0 <= j < k && declares(#[trigger] stmts[j], identity, operation, resource) {
        let j = choose|j: int| 0 <= j < k && declares(#[trigger] stmts[j], identity, operation, resource);
        first_declaring(stmts, j, identity, operation, resource)
    } else {
        k
    }
}

/// What the first `n` numbered statements compile to at one key, given the
/// first statement `k` that declares it.
proof fn lemma_compiled_rule(
    stmts: Seq<Statement>,
    n: int,
    variable: bool,
    k: int,
    identity: Seq<char>,
    operation: Seq<char>,
    resource: Seq<char>,
)
    requires
        0 <= n <= stmts.len(),
        0 <= k < stmts.len(),
        stmts.len() <= usize::MAX,
        forall|j: int| 0 <= j < stmts.len() ==> (#[trigger] stmts[j]).order == j,
        declares(stmts[k], identity, operation, resource),
        forall|j: int| 0 <= j < k ==> !declares(#[trigger] stmts[j], identity, operation, resource),
    ensures
        rule_at(compiled(stmts, n, variable), identity, operation, resource) == (if k < n
            && lands_variable(identity, operation, resource) == variable {
            Some(effect_of(stmts[k], k as usize))
        } else {
            None
        }),
    decreases n,
{
    if n > 0 {
        lemma_compiled_rule(stmts, n - 1, variable, k, identity, operation, resource);
        lemma_merge_rule(
            compiled(stmts, n - 1, variable),
            identity_part(stmts[n - 1], stmts[n - 1].order, variable),
            identity,
            operation,
            resource,
        );
        lemma_identity_part_rule(
            stmts[n - 1],
            stmts[n - 1].order,
            variable,
            identity,
            operation,
            resource,
        );
    }
}

/// Priority: where statements declare the same (identity, operation,
/// resource) key, the compiled policy holds the effect of the earliest of
/// them, with its position as order, in the index that the key belongs to;
/// the other index holds nothing for the key.
pub proof fn lemma_first_declaration_wins(
    stmts: Seq<Statement>,
    k: int,
    identity: Seq<char>,
    operation: Seq<char>,
    resource: Seq<char>,
)
    requires
        0 <= k < stmts.len(),
        stmts.len() <= usize::MAX,
        declares(stmts[k], identity, operation, resource),
        forall|j: int| 0 <= j < k ==> !declares(#[trigger] stmts[j], identity, operation, resource),
    ensures
        rule_at(
            compiled(numbered(stmts), stmts.len() as int, lands_variable(identity, operation, resource)),
            identity,
            operation,
            resource,
        ) == Some(effect_of(stmts[k], k as usize)),
        rule_at(
            compiled(numbered(stmts), stmts.len() as int, !lands_variable(identity, operation, resource)),
            identity,
            operation,
            resource,
        ) is None,
{
    let ns = numbered(stmts);
    assert forall|j: int| 0 <= j < k implies !declares(#[trigger] ns[j], identity, operation, resource) by {
        assert(!declares(stmts[j], identity, operation, resource));
    }
    lemma_compiled_rule(ns, stmts.len() as int, true, k, identity, operation, resource);
    lemma_compiled_rule(ns, stmts.len() as int, false, k, identity, operation, resource);
}

/// Variable propagation: every key that a statement declares under a variable
/// identity pattern is held by the variable index, never by the static one.
pub proof fn lemma_variable_identity_stays_variable(
    stmts: Seq<Statement>,
    k: int,
    identity: Seq<char>,
    operation: Seq<char>,
    resource: Seq<char>,
)
    requires
        0 <= k < stmts.len(),
        stmts.len() <= usize::MAX,
        declares(stmts[k], identity, operation, resource),
        is_variable(identity),
    ensures
        rule_at(compiled(numbered(stmts), stmts.len() as int, false), identity, operation, resource) is None,
        rule_at(compiled(numbered(stmts), stmts.len() as int, true), identity, operation, resource) is Some,
{
    let first = first_declaring(stmts, k, identity, operation, resource);
    lemma_first_declaration_wins(stmts, first, identity, operation, resource);
}

/// Merge order does not matter: where two sets of rules hold entries of
/// different orders at a key, merging either into the other keeps the same
/// entry there.
pub proof fn lemma_merge_order_irrelevant(
    a: Map<Seq<char>, Map<Seq<char>, Map<Seq<char>, EffectOrd>>>,
    b: Map<Seq<char>, Map<Seq<char>, Map<Seq<char>, EffectOrd>>>,
    identity: Seq<char>,
    operation: Seq<char>,
    resource: Seq<char>,
)
    requires
        rule_at(a, identity, operation, resource) matches Some(x) ==> rule_at(
            b,
            identity,
            operation,
            resource,
        ) matches Some(y) ==> x.order != y.order,
    ensures
        rule_at(merge_identities(a, b), identity, operation, resource) == rule_at(
            merge_identities(b, a),
            identity,
            operation,
            resource,
        ),
{
    lemma_merge_rule(a, b, identity, operation, resource);
    lemma_merge_rule(b, a, identity, operation, resource);
}

/// Whether none of the statement's patterns holds a variable.
pub open spec fn literal_statement(st: Statement) -> bool {
    &&& forall|j: int| 0 <= j < st.identities@.len() ==> !is_variable(#[trigger] st.identities@[j]@)
    &&& forall|j: int| 0 <= j < st.operations@.len() ==> !is_variable(#[trigger] st.operations@[j]@)
    &&& forall|j: int| 0 <= j < st.resources@.len() ==> !is_variable(#[trigger] st.resources@[j]@)
}

proof fn lemma_literal_part(st: Statement, p: usize)
    requires
        literal_statement(st),
    ensures
        identity_part(st, p, true) == Map::<Seq<char>, Map<Seq<char>, Map<Seq<char>, EffectOrd>>>::empty(),
{
    assert forall|o: Seq<char>| listed(st.operations@, st.operations@.len() as int, o) implies resource_part(
        st,
        p,
        is_variable(o),
        true,
    ) == Map::<Seq<char>, EffectOrd>::empty() by {
        let j = choose|j: int| 0 <= j < st.operations@.len() && j < st.operations@.len() && (#[trigger] st.operations@[j])@ == o;
        assert forall|r: Seq<char>| !resource_part(st, p, is_variable(o), true).contains_key(r) by {
            if listed(st.resources@, st.resources@.len() as int, r) {
                let k = choose|k: int| 0 <= k < st.resources@.len() && k < st.resources@.len() && (#[trigger] st.resources@[k])@ == r;
            }
        }
        assert(resource_part(st, p, is_variable(o), true) =~= Map::<Seq<char>, EffectOrd>::empty());
    }
    assert forall|i: Seq<char>| listed(st.identities@, st.identities@.len() as int, i) implies operation_part(
        st,
        p,
        is_variable(i),
        true,
    ) == Map::<Seq<char>, Map<Seq<char>, EffectOrd>>::empty() by {
        let j = choose|j: int| 0 <= j < st.identities@.len() && j < st.identities@.len() && (#[trigger] st.identities@[j])@ == i;
        assert(operation_part(st, p, is_variable(i), true) =~= Map::<Seq<char>, Map<Seq<char>, EffectOrd>>::empty());
    }
    assert(identity_part(st, p, true) =~= Map::<Seq<char>, Map<Seq<char>, Map<Seq<char>, EffectOrd>>>::empty());
}

proof fn lemma_literal_compiled(stmts: Seq<Statement>, n: int)
    requires
        0 <= n <= stmts.len(),
        forall|j: int| 0 <= j < stmts.len() ==> literal_statement(#[trigger] stmts[j]),
    ensures
        compiled(stmts, n, true) == Map::<Seq<char>, Map<Seq<char>, Map<Seq<char>, EffectOrd>>>::empty(),
    decreases n,
{
    if n > 0 {
        lemma_literal_compiled(stmts, n - 1);
        lemma_literal_part(stmts[n - 1], stmts[n - 1].order);
        crate::policy::rules::lemma_merge_with_empty(
            Map::<Seq<char>, Map<Seq<char>, Map<Seq<char>, EffectOrd>>>::empty(),
            |x: Map<Seq<char>, Map<Seq<char>, EffectOrd>>, y: Map<Seq<char>, Map<Seq<char>, EffectOrd>>| merge_operations(x, y),
        );
    }
}

/// Statements without variables leave the variable index empty.
pub proof fn lemma_literal_statements_have_no_variable_rules(stmts: Seq<Statement>)
    requires
        forall|j: int| 0 <= j < stmts.len() ==> literal_statement(#[trigger] stmts[j]),
    ensures
        compiled(numbered(stmts), stmts.len() as int, true) == Map::<
            Seq<char>,
            Map<Seq<char>, Map<Seq<char>, EffectOrd>>,
        >::empty(),
{
    let ns = numbered(stmts);
    assert forall|j: int| 0 <= j < ns.len() implies literal_statement(#[trigger] ns[j]) by {
        assert(literal_statement(stmts[j]));
    }
    lemma_literal_compiled(ns, stmts.len() as int);
}

} // verus!
