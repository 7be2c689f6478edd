//! How an explicit `add` or `set` is routed: the options it may carry, the
//! scope it declares, and what the action carries once the scope is set.
use vstd::prelude::*;
use crate::text::{chars_of, string_of};
use crate::value::{Error, Model, Value, copy, entries, get, has_key, insert, lookup, put, same_value, text_is};

verus! {

broadcast use vstd::std_specs::vec::group_vec_axioms;

/// The routing options of a contribution.
pub struct RouteOptions {
    pub shareability: Option<String>,
    pub scope: Option<String>,
    pub environment: Option<String>,
    pub commit: Option<String>,
    pub event_id: Option<String>,
    pub contribution_id: Option<String>,
    pub evidence_root: Option<String>,
    pub disclose_locators: Vec<String>,
}

/// Where an action goes: kept in the local record as it is, or on to a
/// scoped contribution, carrying its scope and sharing permission.
pub enum Routed {
    Local(Value),
    Scoped { action: Value, scope: Value },
}

pub enum RoutedModel {
    Local(Model),
    Scoped(Model, Model),
}

pub open spec fn routed_view(r: Routed) -> RoutedModel {
    match r {
        Routed::Local(a) => RoutedModel::Local(a@),
        Routed::Scoped { action, scope } => RoutedModel::Scoped(action@, scope@),
    }
}

pub open spec fn opt_view(o: Option<String>) -> Option<Seq<char>> {
    match o {
        Some(s) => Some(s@),
        None => None,
    }
}

/// Whether the options ask for anything beyond a local write.
pub open spec fn explicit(o: RouteOptions) -> bool {
    o.shareability is Some || o.scope is Some || o.environment is Some || o.commit is Some || o.event_id is Some
        || o.contribution_id is Some || o.evidence_root is Some || o.disclose_locators@.len() > 0
}

/// The scope's kind: as given, else `unclear`.
pub open spec fn scope_kind(o: RouteOptions) -> Seq<char> {
    match opt_view(o.scope) {
        Some(k) => k,
        None => "unclear"@,
    }
}

/// The scope the options declare, as a mapping in key order: the commit
/// where one is given, the environment (empty by default) and the kind.
pub open spec fn scope_model(o: RouteOptions) -> Model {
    let env = match opt_view(o.environment) {
        Some(e) => e,
        None => Seq::empty(),
    };
    let tail = seq![("environment"@, Model::Text(env)), ("kind"@, Model::Text(scope_kind(o)))];
    Model::Mapping(
        match opt_view(o.commit) {
            Some(c) => seq![("commit"@, Model::Text(c))] + tail,
            None => tail,
        },
    )
}

/// Whether `old` is the mapping `scope`, read as a map: each of its keys
/// holds there what `scope` holds under it, and it has each of `scope`'s
/// keys. Key order does not matter.
pub open spec fn same_mapping(old: Model, scope: Model) -> bool {
    &&& old is Mapping
    &&& scope is Mapping
    &&& forall|i: int|
        0 <= i < old->Mapping_0.len() ==> lookup(scope->Mapping_0, (#[trigger] old->Mapping_0[i]).0) == Some(
            old->Mapping_0[i].1,
        )
    &&& forall|j: int| 0 <= j < scope->Mapping_0.len() ==> has_key(old->Mapping_0, (#[trigger] scope->Mapping_0[j]).0)
}

fn same_mapping_exec(old: &Value, scope: &Value) -> (r: bool)
    ensures
        r == same_mapping(old@, scope@),
{
    let (oes, ses) = match (old, scope) {
        (Value::Mapping(o), Value::Mapping(s)) => (o, s),
        _ => return false,
    };
    proof {
        crate::value::lemma_entries(oes@);
        crate::value::lemma_entries(ses@);
    }
    let ghost ov = entries(oes@);
    let ghost sv = entries(ses@);
    assert(old@ == Model::Mapping(ov));
    assert(scope@ == Model::Mapping(sv));
    let mut i: usize = 0;
    while i < oes.len()
        invariant
            0 <= i <= oes.len(),
            old@ == Model::Mapping(ov),
            scope@ == Model::Mapping(sv),
            ov == entries(oes@),
            sv == entries(ses@),
            ov.len() == oes@.len(),
            forall|q: int| 0 <= q < oes@.len() ==> #[trigger] ov[q] == (oes@[q].0@, crate::value::model(oes@[q].1)),
            forall|q: int| 0 <= q < i ==> lookup(sv, (#[trigger] ov[q]).0) == Some(ov[q].1),
        decreases oes.len() - i,
    {
        assert(ov[i as int] == (oes@[i as int].0@, crate::value::model(oes@[i as int].1)));
        match get(ses, oes[i].0.as_str()) {
            Some(v) => {
                if !same_value(v, &oes[i].1) {
                    assert(lookup(sv, ov[i as int].0) != Some(ov[i as int].1));
                    assert(old@->Mapping_0[i as int] == ov[i as int]);
                    return false;
                }
            },
            None => {
                assert(lookup(sv, ov[i as int].0) != Some(ov[i as int].1));
                assert(old@->Mapping_0[i as int] == ov[i as int]);
                return false;
            },
        }
        i = i + 1;
    }
    let mut j: usize = 0;
    while j < ses.len()
        invariant
            0 <= j <= ses.len(),
            old@ == Model::Mapping(ov),
            scope@ == Model::Mapping(sv),
            forall|q: int| 0 <= q < ov.len() ==> lookup(sv, (#[trigger] ov[q]).0) == Some(ov[q].1),
            ov == entries(oes@),
            sv == entries(ses@),
            sv.len() == ses@.len(),
            forall|q: int| 0 <= q < ses@.len() ==> #[trigger] sv[q] == (ses@[q].0@, crate::value::model(ses@[q].1)),
            forall|q: int| 0 <= q < j ==> has_key(ov, (#[trigger] sv[q]).0),
        decreases ses.len() - j,
    {
        assert(sv[j as int] == (ses@[j as int].0@, crate::value::model(ses@[j as int].1)));
        match crate::value::find(oes, ses[j].0.as_str()) {
            Some(k) => {
                proof {
                    crate::value::lemma_key_index(ov, sv[j as int].0, k as int);
                }
            },
            None => {
                assert(!has_key(ov, sv[j as int].0));
                assert(scope@->Mapping_0[j as int] == sv[j as int]);
                return false;
            },
        }
        j = j + 1;
    }
    true
}

/// The action with the record scope set: `_record_scope` on the action and,
/// for an `add`, `scope` on its body, which must be a mapping whose own
/// scope, if it has one, is the same.
pub open spec fn scoped(kind: Seq<char>, action: Model, scope: Model) -> Result<Model, Seq<char>> {
    match action {
        Model::Mapping(es) => {
            let es1 = put(es, "_record_scope"@, scope);
            if kind == "add"@ {
                match lookup(es1, "body"@) {
                    Some(Model::Mapping(b)) => if has_key(b, "scope"@) && !same_mapping(lookup(b, "scope"@)->0, scope) {
                        Err("entry body scope differs from the requested scope"@)
                    } else {
                        Ok(Model::Mapping(put(es1, "body"@, Model::Mapping(put(b, "scope"@, scope)))))
                    },
                    _ => Err("scoped writes need a complete entry body"@),
                }
            } else {
                Ok(Model::Mapping(es1))
            }
        },
        _ => Err("expected_mapping"@),
    }
}

/// The action carrying its sharing permission, where one is given.
pub open spec fn shared(action: Model, sh: Option<Seq<char>>) -> Result<Model, Seq<char>> {
    match sh {
        None => Ok(action),
        Some(v) => match action {
            Model::Mapping(es) => Ok(Model::Mapping(put(es, "shareability"@, Model::Text(v)))),
            _ => Err("expected_mapping"@),
        },
    }
}

pub open spec fn shareability_ok(v: Seq<char>) -> bool {
    v == "project"@ || v == "private"@ || v == "unclear"@
}

pub open spec fn scope_kind_ok(k: Seq<char>) -> bool {
    k == "project"@ || k == "external"@ || k == "code"@ || k == "feature"@ || k == "unclear"@
}

/// The action carrying an id it is given under `key`, unless the id is no
/// token (`refusal` says why).
pub open spec fn with_id(action: Model, key: Seq<char>, id: Option<Seq<char>>, refusal: Option<Seq<char>>) -> Result<
    Model,
    Seq<char>,
> {
    match id {
        None => Ok(action),
        Some(v) => match refusal {
            Some(e) => Err(e),
            None => match action {
                Model::Mapping(es) => Ok(Model::Mapping(put(es, key, Model::Text(v)))),
                _ => Err("expected_mapping"@),
            },
        },
    }
}

pub open spec fn err_view(e: Option<Error>) -> Option<Seq<char>> {
    match e {
        Some(x) => Some(x.0@),
        None => None,
    }
}

/// Where a `kind` action goes under the options, and what it then carries.
/// `event_token` and `contribution_token` say why the given event and
/// contribution ids are not tokens, where they are not.
pub open spec fn routed(
    kind: Seq<char>,
    o: RouteOptions,
    action: Model,
    event_token: Option<Seq<char>>,
    contribution_token: Option<Seq<char>>,
) -> Result<RoutedModel, Seq<char>> {
    let sh = opt_view(o.shareability);
    if sh matches Some(v) && !shareability_ok(v) {
        Err("shareability must be project, private or unclear"@)
    } else if !explicit(o) {
        Ok(RoutedModel::Local(action))
    } else if !scope_kind_ok(scope_kind(o)) {
        Err("scope must be project, external, code, feature or unclear"@)
    } else {
        let declared = o.scope is Some || o.environment is Some || o.commit is Some;
        let scoped_action = if sh == Some("project"@) && declared {
            scoped(kind, action, scope_model(o))
        } else {
            Ok(action)
        };
        match scoped_action {
            Err(e) => Err(e),
            Ok(a) => match shared(a, sh) {
                Err(e) => Err(e),
                Ok(a2) => match with_id(a2, "event_id"@, opt_view(o.event_id), event_token) {
                    Err(e) => Err(e),
                    Ok(a3) => match with_id(a3, "contribution_id"@, opt_view(o.contribution_id), contribution_token) {
                        Err(e) => Err(e),
                        Ok(a4) => Ok(RoutedModel::Scoped(a4, scope_model(o))),
                    },
                },
            },
        }
    }
}

fn text_value(t: &String) -> (r: Value)
    ensures
        r@ == Model::Text(t@),
{
    Value::Text(string_of(&chars_of(t.as_str())))
}

fn scope_of(o: &RouteOptions) -> (r: Value)
    ensures
        r@ == scope_model(*o),
{
    let env = match &o.environment {
        Some(e) => text_value(e),
        None => Value::Text(String::new()),
    };
    let kind = match &o.scope {
        Some(k) => text_value(k),
        None => Value::Text(string_of(&chars_of("unclear"))),
    };
    let mut es: Vec<(String, Value)> = Vec::new();
    match &o.commit {
        Some(c) => es.push((string_of(&chars_of("commit")), text_value(c))),
        None => {},
    }
    es.push((string_of(&chars_of("environment")), env));
    es.push((string_of(&chars_of("kind")), kind));
    proof {
        crate::value::lemma_entries(es@);
        let want = scope_model(*o)->Mapping_0;
        assert(entries(es@) =~= want) by {
            assert(entries(es@).len() == want.len());
            assert forall|q: int| 0 <= q < want.len() implies #[trigger] entries(es@)[q] == want[q] by {
                assert(entries(es@)[q] == (es@[q].0@, crate::value::model(es@[q].1)));
            }
        }
    }
    Value::Mapping(es)
}

fn one_of(s: &String, words: &[&str]) -> (r: bool)
    ensures
        r == exists|i: int| 0 <= i < words@.len() && s@ == (#[trigger] words@[i])@,
{
    let mut i: usize = 0;
    while i < words.len()
        invariant
            0 <= i <= words.len(),
            forall|j: int| 0 <= j < i ==> s@ != (#[trigger] words@[j])@,
        decreases words.len() - i,
    {
        if text_is(s, words[i]) {
            return true;
        }
        i = i + 1;
    }
    false
}

fn scoped_exec(kind: &str, action: Value, scope: &Value) -> (r: Result<Value, Error>)
    ensures
        match r {
            Ok(v) => scoped(kind@, action@, scope@) == Ok::<Model, Seq<char>>(v@),
            Err(e) => scoped(kind@, action@, scope@) == Err::<Model, Seq<char>>(e.0@),
        },
{
    match action {
        Value::Mapping(mut es) => {
            let ghost es0 = entries(es@);
            insert(&mut es, "_record_scope", copy(scope));
            let ghost es1 = entries(es@);
            assert(es1 == put(es0, "_record_scope"@, scope@));
            if !text_is(&string_of(&chars_of(kind)), "add") {
                return Ok(Value::Mapping(es));
            }
            proof {
                crate::value::lemma_entries(es@);
            }
            let at = crate::value::find(&es, "body");
            let i = match at {
                Some(i) => i,
                None => {
                    return Err(Error(string_of(&chars_of("scoped writes need a complete entry body"))));
                },
            };
            proof {
                crate::value::lemma_key_index(es1, "body"@, i as int);
                assert(es1[i as int] == (es@[i as int].0@, crate::value::model(es@[i as int].1)));
            }
            let (name, body) = es.remove(i);
            match body {
                Value::Mapping(mut b) => {
                    let ghost b0 = entries(b@);
                    proof {
                        crate::value::lemma_entries(b@);
                    }
                    match get(&b, "scope") {
                        Some(old) => {
                            if !same_mapping_exec(old, scope) {
                                return Err(Error(string_of(&chars_of("entry body scope differs from the requested scope"))));
                            }
                        },
                        None => {},
                    }
                    insert(&mut b, "scope", copy(scope));
                    let ghost rest = es@;
                    es.insert(i, (name, Value::Mapping(b)));
                    proof {
                        crate::value::lemma_entries(es@);
                        crate::value::lemma_entries(rest);
                        let want = put(es1, "body"@, Model::Mapping(put(b0, "scope"@, scope@)));
                        assert(crate::value::has_key(es1, "body"@));
                        assert(entries(es@) =~= want) by {
                            assert forall|q: int| 0 <= q < want.len() implies #[trigger] entries(es@)[q] == want[q] by {
                                if q < i {
                                    assert(es@[q] == rest[q]);
                                } else if q > i {
                                    assert(es@[q] == rest[q - 1]);
                                }
                            }
                        }
                    }
                    Ok(Value::Mapping(es))
                },
                _ => Err(Error(string_of(&chars_of("scoped writes need a complete entry body")))),
            }
        },
        _ => Err(Error(string_of(&chars_of("expected_mapping")))),
    }
}

/// Routes a `kind` action under the routing options: refused where the
/// options name a sharing permission or a scope kind that does not exist,
/// kept local where no option asks for more, and otherwise carrying the
/// declared scope, the sharing permission and the event and contribution ids
/// on to a contribution. `event_token` and `contribution_token` are the
/// record's reading of the given ids as tokens: why each is not one, where
/// it is not.
pub fn route_options(
    kind: &str,
    options: &RouteOptions,
    action: Value,
    event_token: Option<Error>,
    contribution_token: Option<Error>,
) -> (r: Result<Routed, Error>)
    ensures
        match r {
            Ok(x) => routed(kind@, *options, action@, err_view(event_token), err_view(contribution_token))
                == Ok::<RoutedModel, Seq<char>>(routed_view(x)),
            Err(e) => routed(kind@, *options, action@, err_view(event_token), err_view(contribution_token))
                == Err::<RoutedModel, Seq<char>>(e.0@),
        },
{
    let ghost a0 = action@;
    match &options.shareability {
        Some(v) => {
            if !one_of(v, &["project", "private", "unclear"]) {
                proof {
                    reveal_strlit("project");
                }
                return Err(Error(string_of(&chars_of("shareability must be project, private or unclear"))));
            }
        },
        None => {},
    }
    let explicit = options.shareability.is_some() || options.scope.is_some() || options.environment.is_some()
        || options.commit.is_some() || options.event_id.is_some() || options.contribution_id.is_some()
        || options.evidence_root.is_some() || options.disclose_locators.len() > 0;
    if !explicit {
        return Ok(Routed::Local(action));
    }
    let scope = scope_of(options);
    let kind_text = match &options.scope {
        Some(k) => string_of(&chars_of(k.as_str())),
        None => string_of(&chars_of("unclear")),
    };
    if !one_of(&kind_text, &["project", "external", "code", "feature", "unclear"]) {
        return Err(Error(string_of(&chars_of("scope must be project, external, code, feature or unclear"))));
    }
    let declared = options.scope.is_some() || options.environment.is_some() || options.commit.is_some();
    let project = match &options.shareability {
        Some(v) => text_is(v, "project"),
        None => false,
    };
    let action = if project && declared {
        match scoped_exec(kind, action, &scope) {
            Ok(a) => a,
            Err(e) => return Err(e),
        }
    } else {
        action
    };
    let action = match &options.shareability {
        Some(v) => match action {
            Value::Mapping(mut es) => {
                insert(&mut es, "shareability", text_value(v));
                Value::Mapping(es)
            },
            _ => return Err(Error(string_of(&chars_of("expected_mapping")))),
        },
        None => action,
    };
    let action = match &options.event_id {
        Some(id) => match event_token {
            Some(e) => return Err(e),
            None => match action {
                Value::Mapping(mut es) => {
                    insert(&mut es, "event_id", text_value(id));
                    Value::Mapping(es)
                },
                _ => return Err(Error(string_of(&chars_of("expected_mapping")))),
            },
        },
        None => action,
    };
    let action = match &options.contribution_id {
        Some(id) => match contribution_token {
            Some(e) => return Err(e),
            None => match action {
                Value::Mapping(mut es) => {
                    insert(&mut es, "contribution_id", text_value(id));
                    Value::Mapping(es)
                },
                _ => return Err(Error(string_of(&chars_of("expected_mapping")))),
            },
        },
        None => action,
    };
    Ok(Routed::Scoped { action, scope })
}

/// A lowercase hexadecimal digit.
pub open spec fn lower_hex(c: char) -> bool {
    ('0' <= c && c <= '9') || ('a' <= c && c <= 'f')
}

/// What holds of every fresh event id: a random version 4 UUID in its simple
/// form, 32 lowercase hexadecimal digits with the version digit `4`.
pub open spec fn fresh_id(s: Seq<char>) -> bool {
    s.len() == 32 && (forall|i: int| 0 <= i < 32 ==> #[trigger] lower_hex(s[i])) && s[12] == '4'
}

/// `uuid::Uuid::new_v4` written with `Uuid::simple`: a random UUID as 32
/// lowercase hexadecimal digits, whose version digit is `4`. Which digits
/// the others are is chance.
#[verifier::external_body]
fn new_event_id() -> (r: String)
    ensures
        fresh_id(r@),
{
    uuid::Uuid::new_v4().simple().to_string()
}

/// The event id of a contribution: the one the options give, else a fresh
/// random one.
pub fn event_id(given: &Option<String>) -> (r: String)
    ensures
        match given {
            Some(g) => r@ == g@,
            None => fresh_id(r@),
        },
{
    match given {
        Some(g) => string_of(&chars_of(g.as_str())),
        None => new_event_id(),
    }
}

/// Only a project share carries the record scope: where the shareability is
/// not `project`, the routed action holds under every key what the action
/// held, except the `shareability` and the ids it is given - so it gains no
/// `_record_scope` and its body is left as it was.
pub proof fn lemma_only_project_shares_carry_scope(
    kind: Seq<char>,
    o: RouteOptions,
    action: Model,
    event_token: Option<Seq<char>>,
    contribution_token: Option<Seq<char>>,
    a: Model,
    s: Model,
)
    requires
        opt_view(o.shareability) != Some("project"@),
        routed(kind, o, action, event_token, contribution_token) == Ok::<RoutedModel, Seq<char>>(RoutedModel::Scoped(a, s)),
    ensures
        forall|k: Seq<char>|
            k != "shareability"@ && k != "event_id"@ && k != "contribution_id"@ ==> #[trigger] lookup(
                crate::value::map_entries(a),
                k,
            ) == lookup(crate::value::map_entries(action), k),
        lookup(crate::value::map_entries(a), "_record_scope"@) == lookup(crate::value::map_entries(action), "_record_scope"@),
        lookup(crate::value::map_entries(a), "body"@) == lookup(crate::value::map_entries(action), "body"@),
{
    reveal_strlit("shareability");
    reveal_strlit("event_id");
    reveal_strlit("contribution_id");
    reveal_strlit("_record_scope");
    reveal_strlit("body");
    let sh = opt_view(o.shareability);
    let a2 = shared(action, sh)->Ok_0;
    let a3 = with_id(a2, "event_id"@, opt_view(o.event_id), event_token)->Ok_0;
    assert forall|k: Seq<char>| k != "shareability"@ && k != "event_id"@ && k != "contribution_id"@ implies #[trigger] lookup(
        crate::value::map_entries(a),
        k,
    ) == lookup(crate::value::map_entries(action), k) by {
        if sh is Some {
            crate::value::lemma_put_other(action->Mapping_0, "shareability"@, Model::Text(sh->0), k);
        }
        if opt_view(o.event_id) is Some {
            crate::value::lemma_put_other(a2->Mapping_0, "event_id"@, Model::Text(opt_view(o.event_id)->0), k);
        }
        if opt_view(o.contribution_id) is Some {
            crate::value::lemma_put_other(a3->Mapping_0, "contribution_id"@, Model::Text(opt_view(o.contribution_id)->0), k);
        }
    }
    assert("_record_scope"@ != "shareability"@ && "_record_scope"@ != "event_id"@ && "_record_scope"@ != "contribution_id"@) by {
        assert("_record_scope"@.len() != "shareability"@.len());
        assert("_record_scope"@.len() != "event_id"@.len());
        assert("_record_scope"@.len() != "contribution_id"@.len());
    }
    assert("body"@ != "shareability"@ && "body"@ != "event_id"@ && "body"@ != "contribution_id"@) by {
        assert("body"@.len() != "shareability"@.len());
        assert("body"@.len() != "event_id"@.len());
        assert("body"@.len() != "contribution_id"@.len());
    }
    assert(lookup(crate::value::map_entries(a), "_record_scope"@) == lookup(crate::value::map_entries(action), "_record_scope"@));
    assert(lookup(crate::value::map_entries(a), "body"@) == lookup(crate::value::map_entries(action), "body"@));
}

/// A project share with a declared scope carries the record scope: the
/// routed action holds that scope under `_record_scope`.
pub proof fn lemma_project_share_carries_scope(
    kind: Seq<char>,
    o: RouteOptions,
    action: Model,
    event_token: Option<Seq<char>>,
    contribution_token: Option<Seq<char>>,
    a: Model,
    s: Model,
)
    requires
        opt_view(o.shareability) == Some("project"@),
        o.scope is Some || o.environment is Some || o.commit is Some,
        routed(kind, o, action, event_token, contribution_token) == Ok::<RoutedModel, Seq<char>>(RoutedModel::Scoped(a, s)),
    ensures
        s == scope_model(o),
        lookup(crate::value::map_entries(a), "_record_scope"@) == Some(s),
{
    reveal_strlit("shareability");
    reveal_strlit("event_id");
    reveal_strlit("contribution_id");
    reveal_strlit("_record_scope");
    reveal_strlit("body");
    let k = "_record_scope"@;
    assert(k.len() != "shareability"@.len() && k.len() != "event_id"@.len() && k.len() != "contribution_id"@.len()
        && k.len() != "body"@.len());
    let sc = scope_model(o);
    let es = action->Mapping_0;
    let es1 = put(es, k, sc);
    crate::value::lemma_put_same(es, k, sc);
    let a1 = scoped(kind, action, sc)->Ok_0;
    if kind == "add"@ {
        let b = lookup(es1, "body"@)->0->Mapping_0;
        crate::value::lemma_put_other(es1, "body"@, Model::Mapping(put(b, "scope"@, sc)), k);
    }
    assert(lookup(crate::value::map_entries(a1), k) == Some(sc));
    let a2 = shared(a1, Some("project"@))->Ok_0;
    crate::value::lemma_put_other(a1->Mapping_0, "shareability"@, Model::Text("project"@), k);
    let a3 = with_id(a2, "event_id"@, opt_view(o.event_id), event_token)->Ok_0;
    if opt_view(o.event_id) is Some {
        crate::value::lemma_put_other(a2->Mapping_0, "event_id"@, Model::Text(opt_view(o.event_id)->0), k);
    }
    if opt_view(o.contribution_id) is Some {
        crate::value::lemma_put_other(a3->Mapping_0, "contribution_id"@, Model::Text(opt_view(o.contribution_id)->0), k);
    }
}

} // verus!
