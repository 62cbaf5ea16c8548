use liasse_runtime::address::{top_address, AddressStep, CollectionPath, KeyValue, RowAddress};
use liasse_runtime::binding::{DepSpec, UseSpec};
use liasse_runtime::captured::StateSection;
use liasse_runtime::cell::{Cell, Row, RowId};
use liasse_runtime::copy::{CarryWork, Shape};
use liasse_runtime::doc::Doc;
use liasse_runtime::exposure::{
    backing_mutation, binding_tail, exposed_grouping, exposed_narrowing, Definition, NarrowingClass,
};
use liasse_runtime::history::ImportRelation;
use liasse_runtime::hosting::{
    check_interface_contracts, Contract, ExposedMutation, InstallWork, LoadError, ModuleHost, Route,
};
use liasse_runtime::imports::{child_imports, parent_surface, ParentImports, Projection, ResolvedParentSurface};
use liasse_runtime::install::{AdmittedBindings, InstallRequest, UseBinding};
use liasse_runtime::integer::Integer;
use liasse_runtime::lifecycle::{
    reject_unsupported_args, AncestryDivergence, Argument, LifecycleOp, ModuleOperand, PackAxes, RollbackPoint,
};
use liasse_runtime::lineage::HistoryPoint;
use liasse_runtime::migrate::{MeteringWork, MigrationWork};
use liasse_runtime::model::Compiled;
use liasse_runtime::module_error::{module_update_error, ModuleError, ModuleUpdateBasis};
use liasse_runtime::module_update::ModulePreparation;
use liasse_runtime::mounting::{
    entry, entry_instance, require_instance_name, sibling_named, step_key_value, MountedModules,
};
use liasse_runtime::operators::{
    marshal, module_operator, operand_value, run_module_operator, ModuleOperator, OperatorArg,
};
use liasse_runtime::parent::{delegate, CallRequest, ParentMutationBinding};
use liasse_runtime::peer::{resolve, SiblingInterface};
use liasse_runtime::program::RowTarget;
use liasse_runtime::recorder::{
    perform, Decoded, LifecycleIntent, LifecycleWork, MigrateAxis, MountedInstance, Occupant, PackageId,
};
use liasse_runtime::rejection::{Rejection, RejectionReason};
use liasse_runtime::slots::{install_into, instance_name, module_move, mount, SlotRow, SlotSyntax};
use liasse_runtime::space::{ModuleSpace, TextStep};
use liasse_runtime::spending::CompiledMeters;
use liasse_runtime::state::{same_fields, Fields};
use liasse_runtime::syntax::{Arg, Expr, Member};
use liasse_runtime::table::Table;
use liasse_runtime::time::{Precision, Timestamp};
use liasse_runtime::update::{Decision, EngineError, Preparation, Release, UpdateBasis, UpdateError, UpdateRelation};
use liasse_runtime::value::{copy_value, same_value, Value};
use liasse_runtime::version::Version;

fn integer(n: i128) -> Value {
    Value::Int(Integer::of(n))
}

fn text(s: &str) -> Value {
    Value::Text(s.to_string())
}

fn texts(items: &[&str]) -> Vec<String> {
    items.iter().map(|s| s.to_string()).collect()
}

fn fields(items: &[(&str, Value)]) -> Fields {
    let mut f: Fields = Table::new();
    for (name, value) in items {
        f.insert(name.to_string(), copy_value(value));
    }
    f
}

fn row(key: &str) -> Row {
    Row { id: RowId { keys: vec![KeyValue::single(text(key))] }, key: text(key), cells: Vec::new() }
}

fn space(path: &str) -> ModuleSpace {
    ModuleSpace::new(path).ok().unwrap()
}

fn version(major: u64) -> Version {
    Version { major, minor: 0, patch: 0 }
}

fn point(p: &str) -> HistoryPoint {
    HistoryPoint { lineage: "app#L0".to_string(), point: p.to_string() }
}

fn basis(head: u64) -> UpdateBasis {
    UpdateBasis {
        instance: "app".to_string(),
        package: "notes".to_string(),
        version: version(1),
        head,
        clock: Timestamp { count: 9, precision: Precision::Seconds },
    }
}

#[test]
fn a_use_text_names_what_it_binds() {
    assert!(matches!(UseSpec::parse("$parent").unwrap(), UseSpec::Parent));
    assert!(matches!(UseSpec::parse("$parent.billing").unwrap(), UseSpec::ParentSurface(n) if n == "billing"));
    assert!(matches!(UseSpec::parse("/modules/a").unwrap(), UseSpec::Path(p) if p == "/modules/a"));
    assert!(matches!(UseSpec::parse("acme.pay/charge@2").unwrap(),
        UseSpec::Peer { line, interface, major } if line == "acme.pay" && interface == "charge" && major == 2));
    assert!(matches!(UseSpec::parse("$parent.").unwrap_err(), ModuleError::InvalidBinding(_)));
    assert!(matches!(UseSpec::parse("acme.pay/charge").unwrap_err(), ModuleError::InvalidBinding(t) if t == "acme.pay/charge"));
    assert!(UseSpec::parse("/charge@2").is_ok());
    assert!(UseSpec::parse("pay/@2").is_err());
}

#[test]
fn a_dependency_text_names_a_line_and_a_major() {
    let d = DepSpec::parse("acme.pay@3").unwrap();
    assert_eq!(d.line, "acme.pay");
    assert_eq!(d.major, 3);
    assert!(DepSpec::parse("acme.pay").is_err());
    assert!(DepSpec::parse("@3").is_err());
    assert!(DepSpec::parse("acme.pay@x").is_err());
}

#[test]
fn a_space_reads_back_from_where_it_is_mounted() {
    let steps = vec![TextStep { collection: "companies".to_string(), key: Ok("acme".to_string()) }];
    let s = ModuleSpace::mounted_at(&steps, "companies/acme", "modules").ok().unwrap();
    assert_eq!(s.as_str(), "/companies/acme/modules");
    assert_eq!(s.declaration_path(), texts(&["companies", "modules"]));
    assert_eq!(s.containing_row_steps().unwrap(), vec![("companies".to_string(), "acme".to_string())]);
    assert_eq!(s.components().len(), 3);
    assert!(s.same(&s.copy()));
    assert!(matches!(ModuleSpace::new("modules"), Err(ModuleError::InvalidSpace(p)) if p == "modules"));
    assert!(ModuleSpace::new("/a//b").is_err());
    assert!(space("/modules").containing_row_steps().unwrap().is_empty());
    assert!(space("/companies/acme").containing_row_steps().is_none());
    let untold = vec![TextStep { collection: "companies".to_string(), key: Err("no text".to_string()) }];
    assert!(ModuleSpace::mounted_at(&untold, "companies/?", "modules").is_err());
}

#[test]
fn an_install_request_is_accepted_with_its_bindings() {
    let accepted = InstallRequest::new("pay", "{}")
        .config("mode", text("live"))
        .use_handle("billing", "$parent")
        .optional_use("peer", "acme/charge@1")
        .dep("codec", "acme.codec@1")
        .data("{}")
        .accept()
        .ok()
        .unwrap();
    assert_eq!(accepted.name, "pay");
    assert_eq!(accepted.bindings.uses.len(), 2);
    assert!(accepted.bindings.uses[1].optional);
    assert_eq!(accepted.bindings.deps.len(), 1);
    assert_eq!(accepted.data.as_deref(), Some("{}"));
    assert!(matches!(InstallRequest::new("", "{}").accept().err().unwrap(), ModuleError::EmptyName));
    assert!(matches!(
        InstallRequest::new("pay", "{}").use_handle("x", "nonsense").accept().err().unwrap(),
        ModuleError::InvalidBinding(_)
    ));
    assert_eq!(InstallRequest::new("pay", "{}").name(), "pay");
    assert_eq!(InstallRequest::new("pay", "{}").definition(), "{}");
}

fn bindings(uses: Vec<UseBinding>) -> AdmittedBindings {
    AdmittedBindings { config: Table::new(), uses, deps: Vec::new() }
}

fn bound(handle: &str, spec: &str, optional: bool) -> UseBinding {
    UseBinding { handle: handle.to_string(), spec: UseSpec::parse(spec).unwrap(), optional }
}

fn sibling(name: &str, major: u64) -> SiblingInterface {
    SiblingInterface {
        name: name.to_string(),
        line: "acme".to_string(),
        major,
        interfaces: texts(&["charge"]),
    }
}

#[test]
fn a_peer_is_the_one_fitting_sibling() {
    let one = resolve(&space("/modules"), &bindings(vec![bound("p", "acme/charge@1", false)]), &vec![
        sibling("a", 1),
        sibling("b", 2),
    ])
    .ok()
    .unwrap();
    assert_eq!(one.len(), 1);
    assert_eq!(one[0].instance.as_deref(), Some("a"));
    let ambiguous = resolve(
        &space("/modules"),
        &bindings(vec![bound("p", "acme/charge@1", true)]),
        &vec![sibling("a", 1), sibling("b", 1)],
    );
    assert!(matches!(ambiguous.err().unwrap(), ModuleError::PeerUnresolved(h, _) if h == "p"));
    let missing =
        resolve(&space("/modules"), &bindings(vec![bound("p", "acme/charge@1", false)]), &vec![]).err().unwrap();
    assert_eq!(
        missing.text(),
        "peer binding `p` cannot be resolved: no enabled sibling in the module space exposes interface `charge` at major 1 on line `acme`",
    );
    let optional =
        resolve(&space("/modules"), &bindings(vec![bound("p", "acme/charge@1", true)]), &vec![]).ok().unwrap();
    assert!(optional[0].instance.is_none());
}

#[test]
fn a_bound_path_chooses_among_fitting_siblings() {
    let uses = || vec![bound("p", "acme/charge@1", false), bound("p", "/modules/b", false)];
    let chosen =
        resolve(&space("/modules"), &bindings(uses()), &vec![sibling("a", 1), sibling("b", 1)]).ok().unwrap();
    assert_eq!(chosen[0].instance.as_deref(), Some("b"));
    let unfit =
        resolve(&space("/modules"), &bindings(uses()), &vec![sibling("a", 1), sibling("b", 2)]).err().unwrap();
    assert!(unfit.text().contains("sibling `b` does not expose interface `charge` at major 1 on line `acme`"));
    let gone = resolve(&space("/modules"), &bindings(uses()), &vec![sibling("a", 1)]).err().unwrap();
    assert!(gone.text().contains("explicit binding names `b`, which is not an installed sibling in this space"));
    let qualified =
        |path: &str| bindings(vec![bound("p", "acme/charge@1", false), bound("p", path, false)]);
    let named = resolve(&space("/modules"), &qualified("/modules/b#charge"), &vec![sibling("a", 1), sibling("b", 1)]);
    assert_eq!(named.ok().unwrap()[0].instance.as_deref(), Some("b"));
    let other = resolve(&space("/modules"), &qualified("/modules/b#refund"), &vec![sibling("b", 1)]).err().unwrap();
    assert!(other.text().contains("explicit binding `/modules/b#refund` does not name interface `charge`"));
    let elsewhere = vec![bound("p", "acme/charge@1", false), bound("p", "/other/b", false)];
    assert!(resolve(&space("/modules"), &bindings(elsewhere), &vec![sibling("b", 1)])
        .err()
        .unwrap()
        .text()
        .contains("must name a sibling instance in the same module space `/modules`"));
}

#[test]
fn imports_are_read_from_the_parent() {
    let uses = bindings(vec![bound("billing", "$parent", false), bound("peer", "acme/charge@1", false)]);
    assert_eq!(parent_surface(&uses.uses[0]).unwrap(), "billing");
    assert!(parent_surface(&uses.uses[1]).is_none());
    let surface = || ResolvedParentSurface { value: Cell::Scalar(text("v")), muts: Vec::new() };
    let imports = child_imports(&uses, &vec![Ok(Some(surface())), Ok(None)]).ok().unwrap();
    assert_eq!(imports.values().len(), 1);
    assert!(imports.values().contains(&"billing".to_string()));
    let failed = child_imports(&uses, &vec![Err(EngineError::Store("down".to_string())), Ok(None)]);
    assert!(matches!(failed.err().unwrap(), ModuleError::Engine(_)));
    let mut none = ParentImports::none();
    assert!(none.values().is_empty());
    none.bind("h", Cell::Scalar(text("x")));
    assert_eq!(none.values().len(), 1);
}

fn import_call(handle: &str, mutation: &str, member: Member) -> Expr {
    Expr::Call {
        callee: Box::new(Expr::Field {
            base: Box::new(Expr::Import(handle.to_string())),
            member: mutation.to_string(),
            structural: false,
        }),
        args: vec![Arg::Positional(Expr::Object(vec![member]))],
    }
}

#[test]
fn a_call_is_delegated_to_the_parent() {
    let e = import_call("billing", "charge", Member::Named("sum".to_string(), Some(Expr::Param("amount".to_string()))));
    let parsed = ParentMutationBinding::parse(&e).unwrap();
    assert_eq!(parsed.handle, "billing");
    assert_eq!(parsed.mutation, "charge");
    let uses = vec![bound("billing", "$parent", false)];
    let surface =
        ResolvedParentSurface { value: Cell::Scalar(Value::Absent), muts: vec![("charge".to_string(), ".root_charge()".to_string())] };
    let request = delegate(
        &space("/modules"),
        &uses,
        &Some(e),
        &fields(&[("amount", integer(5))]),
        &vec![Ok(Some(surface))],
    )
    .ok()
    .unwrap()
    .unwrap();
    assert_eq!(request.mutation, "root_charge");
    assert!(same_fields(&request.args, &fields(&[("sum", integer(5))])));
    let projections: Vec<Projection> = vec![Ok(None)];
    assert!(delegate(&space("/modules"), &uses, &None, &fields(&[]), &projections).ok().unwrap().is_none());
    assert!(ParentMutationBinding::parse(&Expr::Current).is_none());
}

fn work(engine: u32) -> InstallWork<u32> {
    InstallWork {
        contracts: None,
        live: Ok(true),
        projections: Vec::new(),
        store: Ok(()),
        loaded: Ok(engine),
        exposed: Vec::new(),
        overlaid: None,
    }
}

fn host() -> ModuleHost<u32> {
    let mut h = ModuleHost::new(0, "app".to_string());
    h.install(&space("/modules"), InstallRequest::new("pay", "{}"), work(1)).ok().unwrap();
    h
}

#[test]
fn every_installation_has_an_incarnation_of_its_own() {
    let mut h = host();
    let first = h.incarnation(&space("/modules"), "pay").unwrap().clone();
    assert_eq!(first, "app#m0-modules-pay");
    let second = h.install(&space("/modules"), InstallRequest::new("mail", "{}"), work(2)).ok().unwrap();
    assert_ne!(first, second);
    h.uninstall(&space("/modules"), "pay").unwrap();
    let third = h.install(&space("/modules"), InstallRequest::new("pay", "{}"), work(3)).ok().unwrap();
    assert_ne!(first, third);
    assert_eq!(h.enabled_child(&space("/modules"), "pay").ok().unwrap(), 1);
    assert!(h.bindings(&space("/modules"), "pay").unwrap().uses.is_empty());
    *h.root_mut() = 7;
    assert_eq!(*h.root(), 7);
}

#[test]
fn an_installation_is_refused_by_what_is_wrong_with_it() {
    let mut h = host();
    let here = space("/modules");
    assert!(matches!(
        h.install(&here, InstallRequest::new("pay", "{}"), work(2)).unwrap_err(),
        ModuleError::DuplicateName(n) if n == "pay"
    ));
    assert!(matches!(
        h.install(&here, InstallRequest::new("", "{}"), work(2)).unwrap_err(),
        ModuleError::EmptyName
    ));
    let mut mismatched = work(2);
    mismatched.loaded = Err(LoadError::Mismatch("mode".to_string()));
    assert!(matches!(
        h.install(&here, InstallRequest::new("x", "{}"), mismatched).unwrap_err(),
        ModuleError::ConfigMismatch(_)
    ));
    let mut rowless = work(2);
    rowless.contracts = Some(Vec::new());
    rowless.live = Ok(false);
    assert!(matches!(
        h.install(&space("/companies/acme/modules"), InstallRequest::new("x", "{}"), rowless).unwrap_err(),
        ModuleError::MissingContainingRow(_)
    ));
    let mut unmet = work(2);
    unmet.contracts = Some(vec![contract()]);
    unmet.exposed = vec![Some(vec![("sum".to_string(), "text".to_string())])];
    assert!(matches!(
        h.install(&here, InstallRequest::new("x", "{}"), unmet).unwrap_err(),
        ModuleError::InterfaceContract(n, _) if n == "charge"
    ));
    assert!(!h.is_installed(&here, "x"));
}

fn contract() -> Contract {
    Contract { name: "charge".to_string(), view_fields: vec![("sum".to_string(), "decimal".to_string())] }
}

#[test]
fn an_exposed_view_meets_the_declared_interface() {
    let met = vec![Some(vec![
        ("note".to_string(), "text".to_string()),
        ("sum".to_string(), "decimal".to_string()),
    ])];
    assert!(check_interface_contracts(&vec![contract()], &met).is_ok());
    let hidden = check_interface_contracts(&vec![contract()], &vec![None]).unwrap_err();
    assert_eq!(
        hidden.text(),
        "the child does not satisfy interface contract `charge`: the interface is not exposed",
    );
    let nothing = Contract { name: "charge".to_string(), view_fields: Vec::new() };
    assert!(check_interface_contracts(&vec![nothing], &vec![None]).is_ok());
    let refused = check_interface_contracts(&vec![contract()], &vec![Some(Vec::new())]).unwrap_err();
    assert_eq!(
        refused.text(),
        "the child does not satisfy interface contract `charge`: the exposed view does not provide field `sum` with the declared type",
    );
}

#[test]
fn a_disabled_instance_answers_nothing_until_it_is_enabled() {
    let mut h = host();
    let here = space("/modules");
    h.disable(&here, "pay").unwrap();
    assert!(h.is_installed(&here, "pay"));
    assert!(!h.is_enabled(&here, "pay"));
    assert!(matches!(h.child_call(&here, "pay", Ok(1)).unwrap_err(), ModuleError::Disabled(n) if n == "pay"));
    assert!(matches!(h.child_view::<u32>(&here, "pay", Ok(None)).unwrap_err(), ModuleError::Disabled(_)));
    h.enable(&here, "pay").unwrap();
    assert_eq!(h.child_call(&here, "pay", Ok(1)).ok().unwrap(), 1);
    assert!(matches!(h.disable(&here, "gone").unwrap_err(), ModuleError::Unknown(n) if n == "gone"));
    assert!(matches!(
        h.interface_read::<u32>(&here, "pay", Err(ModuleError::EmptyName), Ok(None)).unwrap_err(),
        ModuleError::EmptyName
    ));
    assert!(h.root_view(Ok(()), Ok(3), Ok(Some(1))).ok().unwrap().is_some());
    assert!(h.root_view::<u32>(Ok(()), Err(EngineError::Store("x".to_string())), Ok(None)).is_err());
}

#[test]
fn a_renamed_instance_keeps_its_incarnation() {
    let mut h = host();
    let here = space("/modules");
    let was = h.incarnation(&here, "pay").unwrap().clone();
    h.rename(&here, "pay", "billing").unwrap();
    assert!(!h.is_installed(&here, "pay"));
    assert_eq!(h.incarnation(&here, "billing").unwrap(), &was);
    h.install(&here, InstallRequest::new("mail", "{}"), work(2)).ok().unwrap();
    assert!(matches!(h.rename(&here, "mail", "billing").unwrap_err(), ModuleError::DuplicateName(_)));
    h.uninstall(&here, "billing").unwrap();
    assert!(matches!(h.uninstall(&here, "billing").unwrap_err(), ModuleError::Unknown(_)));
}

#[test]
fn an_interface_call_is_routed() {
    let h = host();
    let here = space("/modules");
    let request = || CallRequest { mutation: "charge".to_string(), receiver: Vec::new(), args: Table::new() };
    let own = ExposedMutation {
        interface: "billing".to_string(),
        mutation: "charge".to_string(),
        private: Some("charge_now".to_string()),
        binding: None,
    };
    assert!(matches!(
        h.interface_call(&here, "pay", &own, request(), &Vec::new()).ok().unwrap(),
        Route::Child(r) if r.mutation == "charge_now"
    ));
    let unbound = ExposedMutation {
        interface: "billing".to_string(),
        mutation: "charge".to_string(),
        private: None,
        binding: None,
    };
    assert!(h
        .interface_call(&here, "pay", &unbound, request(), &Vec::new())
        .err()
        .unwrap()
        .text()
        .contains("interface binds no routable mutation `charge`"));
    assert!(h
        .parent_mutation_request(&here, "pay", &None, &request(), &Vec::new())
        .ok()
        .unwrap()
        .is_none());
}

#[test]
fn only_enabled_instances_are_aggregated() {
    let mut h = host();
    let here = space("/modules");
    h.install(&here, InstallRequest::new("mail", "{}"), work(2)).ok().unwrap();
    h.disable(&here, "pay").unwrap();
    let rows = h.aggregate(&here, &vec![Ok(Some(vec![row("a")])), Ok(Some(vec![row("b")]))]).ok().unwrap();
    assert_eq!(rows.len(), 1);
    assert_eq!(rows[0].instance, "mail");
    let gathered = h
        .aggregate_snapshot(&vec![
            vec![("billing".to_string(), Ok(Some(vec![row("a")])))],
            vec![("billing".to_string(), Ok(Some(vec![row("b")])))],
        ])
        .ok()
        .unwrap();
    assert_eq!(gathered.instances.len(), 1);
    let root = Row { id: RowId { keys: vec![] }, key: Value::Absent, cells: Vec::new() };
    let folded = gathered.fold_into(root, &vec![texts(&["modules"])], &Table::new());
    assert!(matches!(folded.cell("modules").unwrap(), Cell::Collection(rows)
        if rows.len() == 1 && rows[0].cell("billing").is_some()));
}

fn down() -> EngineError {
    EngineError::Store("down".to_string())
}

fn empty_shape() -> Shape {
    Shape { compiled: Compiled { collections: Vec::new() }, members: Vec::new() }
}

/// The update of an instance without rows from its first version to its second.
fn module_preparation(head: Result<u64, EngineError>) -> ModulePreparation {
    let (instance, own) = match head {
        Ok(n) => (Ok(basis(n)), Ok(basis(n))),
        Err(e) => (Err(e), Err(down())),
    };
    ModulePreparation {
        instance,
        active: Ok(Some(definition(&["id"], &[]))),
        from: version(1),
        target: definition(&["id"], &[]),
        preparation: Preparation {
            basis: own,
            release: Ok(Release {
                name: "notes".to_string(),
                version: version(2),
                shape: empty_shape(),
                definition: Doc::Other,
                model: None,
            }),
            decision: Ok(Decision { relation: UpdateRelation::Minor, requires_non_narrowing: true }),
            narrowing: None,
            active: empty_shape(),
            active_definition: Ok(None),
            captured: Ok(StateSection { collections: Vec::new(), singleton: None }),
            source_root: Ok(()),
            work: MigrationWork {
                carry: CarryWork { collections: Vec::new(), singleton: Vec::new(), singleton_writes: Vec::new() },
                programs: Vec::new(),
                decoded: Vec::new(),
                seed: None,
                bundle: None,
                admission: Ok(()),
                metering: MeteringWork {
                    meters: CompiledMeters { meters: Vec::new(), spends: Vec::new() },
                    checks: Vec::new(),
                    evals: Vec::new(),
                    now: Timestamp { count: 9, precision: Precision::Seconds },
                },
            },
            rebind: Ok(()),
            policy: Ok(()),
            reserved: top_address("$root", KeyValue::single(text("root"))),
        },
    }
}

#[test]
fn a_module_update_is_settled_by_its_instance() {
    let h = host();
    let here = space("/modules");
    assert!(matches!(
        h.update(&here, "gone", module_preparation(Ok(4)), Ok(basis(4)), Ok(5)).err().unwrap(),
        ModuleError::Unknown(n) if n == "gone"
    ));
    let done = h.update(&here, "pay", module_preparation(Ok(4)), Ok(basis(4)), Ok(5)).ok().unwrap();
    assert_eq!((done.from.as_str(), done.to.as_str()), ("1.0.0", "2.0.0"));
    assert_eq!(done.commit, 5);
    assert_eq!(done.exposed_unchanged, texts(&["billing"]));
    assert!(done.exposed_changed.is_empty() && done.exposed_removed.is_empty());
    assert!(done.imports_rebound.is_empty() && done.imports_broken.is_empty());
    assert!(matches!(
        h.update(&here, "pay", module_preparation(Ok(4)), Ok(basis(6)), Ok(7)).err().unwrap(),
        ModuleError::Stale { prepared, current }
            if prepared.instance.head == 4 && current.instance.head == 6
    ));
    assert!(matches!(
        h.update(&here, "pay", module_preparation(Ok(4)), Ok(basis(4)), Err(down())).err().unwrap(),
        ModuleError::Engine(EngineError::Store(m)) if m == "down"
    ));
    assert!(matches!(
        h.update(&here, "pay", module_preparation(Err(down())), Ok(basis(4)), Ok(5)).err().unwrap(),
        ModuleError::Engine(EngineError::Store(_))
    ));
    let mut narrowing = module_preparation(Ok(4));
    narrowing.target = Definition { document: None, shown: Vec::new() };
    assert!(matches!(
        h.update(&here, "pay", narrowing, Ok(basis(4)), Ok(5)).err().unwrap(),
        ModuleError::ExposedNarrowed(m) if m == "exposed interface `billing` is removed"
    ));
    let b = h.module_update_basis(&here, "pay", Ok(basis(4))).ok().unwrap();
    assert!(b.same(&h.module_update_basis(&here, "pay", Ok(basis(4))).ok().unwrap()));
    assert!(!b.same(&h.module_update_basis(&here, "pay", Ok(basis(5))).ok().unwrap()));
    assert!(b.text().contains("at commit 4"));
}

fn word(s: &str) -> Doc {
    Doc::Text(s.to_string())
}

fn object(items: Vec<(&str, Doc)>) -> Doc {
    Doc::Object(items.into_iter().map(|(n, d)| (n.to_string(), d)).collect())
}

/// A definition that exposes `billing` with these fields and operations.
fn definition(shown: &[&str], operations: &[(&str, &str)]) -> Definition {
    let ops = operations.iter().map(|(n, b)| (*n, word(b))).collect();
    Definition {
        document: Some(object(vec![
            ("$expose", object(vec![("billing", object(vec![("$view", word("v")), ("$mut", object(ops))]))])),
            ("$model", object(vec![("$mut", object(vec![("charge_now", word("p"))]))])),
        ])),
        shown: vec![Some(Expr::Block {
            base: Box::new(Expr::Current),
            members: shown.iter().map(|n| Member::Named(n.to_string(), None)).collect(),
        })],
    }
}

#[test]
fn a_candidate_may_not_narrow_what_is_exposed() {
    let active = definition(&["id", "sum"], &[("charge", ".charge_now()")]);
    assert!(exposed_narrowing(&active, &definition(&["id", "sum", "note"], &[("charge", ".other")])).is_none());
    let dropped = exposed_narrowing(&active, &definition(&["id"], &[("charge", ".charge_now()")])).unwrap();
    assert_eq!(dropped.reason, "exposed interface `billing` view drops field `sum`");
    assert_eq!(dropped.class, NarrowingClass::Definitional);
    let withdrawn = exposed_narrowing(&active, &definition(&["id", "sum"], &[])).unwrap();
    assert_eq!(withdrawn.reason, "exposed interface `billing` no longer binds operation `charge`");
    assert_eq!(withdrawn.class, NarrowingClass::BindingWithdrawn);
    let none = Definition { document: None, shown: Vec::new() };
    assert_eq!(
        exposed_narrowing(&active, &none).unwrap().reason,
        "exposed interface `billing` is removed",
    );
}

#[test]
fn exposed_interfaces_are_grouped_by_how_they_move() {
    let active = definition(&["id"], &[]);
    let same = exposed_grouping(&active, &definition(&["id"], &[]));
    assert_eq!(same.unchanged, texts(&["billing"]));
    assert!(same.changed.is_empty() && same.removed.is_empty());
    let more = exposed_grouping(&active, &definition(&["id", "sum"], &[]));
    assert_eq!(more.changed, texts(&["billing"]));
    let gone = exposed_grouping(&active, &Definition { document: None, shown: Vec::new() });
    assert_eq!(gone.removed, texts(&["billing"]));
}

#[test]
fn a_binding_names_its_private_mutation() {
    assert_eq!(backing_mutation(" = .charge_now() ").as_deref(), Some("charge_now"));
    assert_eq!(backing_mutation(".rows.charge_2").as_deref(), Some("charge_2"));
    assert_eq!(backing_mutation(".chärge").as_deref(), Some("chärge"));
    assert!(backing_mutation(".charge({ a: 1 })").is_none());
    assert!(backing_mutation("charge").is_none());
    assert!(backing_mutation(".count = .total").is_none());
    assert_eq!(backing_mutation(".templates[@t].disable()").as_deref(), Some("disable"));
    assert_eq!(backing_mutation(". create").as_deref(), Some("create"));
    assert_eq!(backing_mutation("= .templates . disable ()").as_deref(), Some("disable"));
    assert_eq!(backing_mutation(".rows[.id == \"a].b\"].close()").as_deref(), Some("close"));
    assert_eq!(backing_mutation(".rows[.id == 'it\\'s ].x'].close").as_deref(), Some("close"));
    assert_eq!(backing_mutation(".rows[names[0]].$parent.close").as_deref(), Some("close"));
    assert!(backing_mutation(".a + .b").is_none());
    assert!(backing_mutation(".rows[x").is_none());
    assert!(backing_mutation(".rows[x]").is_none());
    assert!(backing_mutation(".one two").is_none());
    assert_eq!(binding_tail(".rows.charge").as_deref(), Some("charge"));
    assert!(binding_tail(".rows.charge!").is_none());
}

fn identity() -> PackageId {
    PackageId { definition: "acme.pay@1.0.0".to_string(), content: "sha512:ab".to_string() }
}

fn lifecycle(relation: ImportRelation) -> LifecycleWork {
    LifecycleWork {
        blob: Ok(Some(vec![1, 2])),
        decoded: Ok(Decoded { definition: "{}".to_string(), identity: identity() }),
        exported: Ok(vec![3]),
        packed: "digest".to_string(),
        relation: Ok(relation),
        incoming: Ok(point("9")),
        instant: "2020".to_string(),
    }
}

fn instances() -> Vec<MountedInstance> {
    vec![MountedInstance {
        space: "/modules".to_string(),
        name: "pay".to_string(),
        version: version(1),
        point: point("4"),
        enabled: true,
    }]
}

fn args(items: Vec<(&str, Value)>) -> Vec<(String, Argument)> {
    items.into_iter().map(|(n, v)| (n.to_string(), Argument::Value(v))).collect()
}

fn mounted() -> Value {
    Value::Mounted("/modules/pay".to_string())
}

#[test]
fn an_operation_takes_its_own_arguments_only() {
    assert!(reject_unsupported_args(LifecycleOp::Remove, &args(vec![("space", text("/modules"))])).is_ok());
    let refused = reject_unsupported_args(LifecycleOp::Remove, &args(vec![("blob", text("x"))])).unwrap_err();
    assert!(refused.message.starts_with(
        "`remove` does not support the `blob` argument; supported members are space, name"
    ));
    assert_eq!(LifecycleOp::Pack.supported_args(), texts(&["module", "model", "data", "history"]));
    assert_eq!(LifecycleOp::Install.member(), "install");
}

#[test]
fn an_installed_package_refuses_an_occupied_name() {
    let given = args(vec![("space", text("/modules")), ("name", text("pay")), ("blob", Value::Blob("d".to_string()))]);
    let done =
        perform(LifecycleOp::Install, &given, &instances(), lifecycle(ImportRelation::SamePoint)).ok().unwrap();
    assert!(same_value(&done.answer, &text("acme.pay@1.0.0")));
    assert!(matches!(done.intent.unwrap(), LifecycleIntent::Install { occupant, package, .. }
        if occupant == Occupant::Refuse && package.content == "sha512:ab"));
    let nameless = perform(
        LifecycleOp::Install,
        &args(vec![("space", text("/modules"))]),
        &instances(),
        lifecycle(ImportRelation::SamePoint),
    )
    .err()
    .unwrap();
    assert_eq!(nameless.message, "`module.install` requires a text `name` argument");
    let mut unheld = lifecycle(ImportRelation::SamePoint);
    unheld.blob = Ok(None);
    assert_eq!(
        perform(LifecycleOp::Install, &given, &instances(), unheld).err().unwrap().message,
        "the `.liasse` blob is not held by the store, so its bytes cannot be read",
    );
    let mut torn = lifecycle(ImportRelation::SamePoint);
    torn.decoded = Err("bad header".to_string());
    assert_eq!(
        perform(LifecycleOp::Update, &given, &instances(), torn).err().unwrap().message,
        "malformed module package blob: bad header",
    );
    let removed = perform(
        LifecycleOp::Remove,
        &args(vec![("space", text("/modules")), ("name", text("pay"))]),
        &instances(),
        lifecycle(ImportRelation::SamePoint),
    )
    .ok()
    .unwrap();
    assert!(matches!(removed.intent.unwrap(), LifecycleIntent::Remove { .. }));
}

#[test]
fn a_module_is_packed_as_far_as_it_is_retained() {
    let pending = perform(
        LifecycleOp::Pack,
        &args(vec![("module", Value::Pending("d".to_string()))]),
        &instances(),
        lifecycle(ImportRelation::SamePoint),
    )
    .ok()
    .unwrap();
    assert!(same_value(&pending.answer, &Value::Blob("d".to_string())));
    assert!(pending.intent.is_none());
    let live = perform(
        LifecycleOp::Pack,
        &args(vec![("module", mounted()), ("model", text("1.0.0"))]),
        &instances(),
        lifecycle(ImportRelation::SamePoint),
    )
    .ok()
    .unwrap();
    assert!(same_value(&live.answer, &Value::Blob("digest".to_string())));
    assert!(matches!(live.intent.unwrap(), LifecycleIntent::Pack { bytes } if bytes == vec![3]));
    let other = perform(
        LifecycleOp::Pack,
        &args(vec![("module", mounted()), ("model", text("2.0.0"))]),
        &instances(),
        lifecycle(ImportRelation::SamePoint),
    )
    .err()
    .unwrap();
    assert_eq!(other.reason, RejectionReason::Unsupported);
    let unknown = perform(
        LifecycleOp::Pack,
        &args(vec![("module", Value::Mounted("/modules/gone".to_string()))]),
        &instances(),
        lifecycle(ImportRelation::SamePoint),
    )
    .err()
    .unwrap();
    assert!(unknown.message.contains("which resolves to no enabled module instance in this transition"));
}

#[test]
fn a_module_moves_forward_and_back_along_its_history() {
    let onto = || {
        args(vec![
            ("module", mounted()),
            ("onto", Value::Pending("d".to_string())),
            ("migrate", text("model+data")),
        ])
    };
    let forward =
        perform(LifecycleOp::UpdateModule, &onto(), &instances(), lifecycle(ImportRelation::FastForward)).ok().unwrap();
    assert!(matches!(forward.intent.unwrap(), LifecycleIntent::Movement { relation, .. }
        if relation == ImportRelation::FastForward));
    assert!(perform(LifecycleOp::UpdateModule, &onto(), &instances(), lifecycle(ImportRelation::Merge)).is_err());
    let back = || args(vec![("module", mounted()), ("point", Value::Blob("d".to_string()))]);
    let returned =
        perform(LifecycleOp::Rollback, &back(), &instances(), lifecycle(ImportRelation::Rollback)).ok().unwrap();
    assert!(same_value(&returned.answer, &text("9")));
    assert!(matches!(returned.intent.unwrap(), LifecycleIntent::Movement { .. }));
    let still =
        perform(LifecycleOp::Rollback, &back(), &instances(), lifecycle(ImportRelation::SamePoint)).ok().unwrap();
    assert!(still.intent.is_none());
    let instant = args(vec![
        ("module", mounted()),
        ("point", Value::Timestamp(Timestamp { count: 1, precision: Precision::Seconds })),
    ]);
    assert_eq!(
        perform(LifecycleOp::Rollback, &instant, &instances(), lifecycle(ImportRelation::Rollback)).err().unwrap().reason,
        RejectionReason::Unsupported,
    );
    let model = perform(
        LifecycleOp::UpdateModule,
        &args(vec![("module", mounted()), ("onto", Value::Pending("d".to_string()))]),
        &instances(),
        lifecycle(ImportRelation::Unrelated),
    )
    .ok()
    .unwrap();
    assert!(matches!(model.intent.unwrap(), LifecycleIntent::Update { .. }));
    assert_eq!(liasse_runtime::recorder::migrate_axis(&Vec::new()).ok().unwrap(), MigrateAxis::Model);
    assert!(liasse_runtime::recorder::migrate_axis(&args(vec![("migrate", text("all"))])).is_err());
}

#[test]
fn a_module_moves_within_its_own_space_only() {
    let to = |space: &str, module: Value| args(vec![("space", text(space)), ("name", text("new")), ("module", module)]);
    let placed = perform(
        LifecycleOp::InstallModule,
        &to("/modules", Value::Pending("d".to_string())),
        &instances(),
        lifecycle(ImportRelation::SamePoint),
    )
    .ok()
    .unwrap();
    assert!(matches!(placed.intent.unwrap(), LifecycleIntent::Install { occupant, .. } if occupant == Occupant::Drop));
    let moved = perform(
        LifecycleOp::InstallModule,
        &to("/modules", mounted()),
        &instances(),
        lifecycle(ImportRelation::SamePoint),
    )
    .ok()
    .unwrap();
    assert!(matches!(moved.intent.unwrap(), LifecycleIntent::Relocate { from, to, .. } if from == "pay" && to == "new"));
    let crossed = perform(
        LifecycleOp::InstallModule,
        &to("/others", mounted()),
        &instances(),
        lifecycle(ImportRelation::SamePoint),
    )
    .err()
    .unwrap();
    assert_eq!(crossed.reason, RejectionReason::Unsupported);
}

#[test]
fn a_module_argument_is_pending_or_mounted() {
    let read = |v: Value| ModuleOperand::read(&args(vec![("module", v)]), "module", "pack");
    assert!(matches!(read(Value::Pending("d".to_string())).unwrap(), ModuleOperand::Pending(d) if d == "d"));
    let at = read(mounted()).unwrap();
    assert_eq!(at.mount("pack").unwrap(), (&"/modules".to_string(), &"pay".to_string()));
    assert!(read(text("x")).unwrap_err().message.contains("requires a `module` value as its `module` operand"));
    assert!(read(Value::Pending("d".to_string())).unwrap().mount("pack").is_err());
    let axes = PackAxes::read(&args(vec![("model", text("1.0.0"))]));
    assert!(!axes.is_current());
    assert!(axes.check(version(1), &point("4"), "").is_ok());
    assert!(axes.check(version(2), &point("4"), "").is_err());
    assert!(PackAxes::read(&Vec::new()).is_current());
    assert!(matches!(
        RollbackPoint::read(&args(vec![("point", Value::Blob("d".to_string()))])).unwrap(),
        RollbackPoint::Artifact(_)
    ));
    assert!(RollbackPoint::read(&Vec::new()).is_err());
}

#[test]
fn diverged_histories_are_told() {
    assert!(AncestryDivergence::is_fast_forward(ImportRelation::FastForward));
    assert!(!AncestryDivergence::is_fast_forward(ImportRelation::Merge));
    let d = AncestryDivergence {
        relation: ImportRelation::Merge,
        at: "/modules/pay".to_string(),
        local: point("4"),
        incoming: point("9"),
    };
    assert!(d.text().contains("/modules/pay"));
    assert!(!d.cause().is_empty());
    let message = d.text();
    assert_eq!(d.into_rejection().message, message);
}

#[test]
fn only_a_lent_operator_runs() {
    let call = || vec![OperatorArg::Positional(Ok(Argument::Value(mounted())))];
    let refused = marshal(ModuleOperator::Pack, false, Ok(()), &call()).err().unwrap();
    assert!(refused.message.contains("is host-privileged"));
    let gone = marshal(ModuleOperator::Pack, true, Err(Rejection::new(RejectionReason::MissingTarget, "gone")), &call());
    assert_eq!(gone.err().unwrap().message, "gone");
    assert_eq!(
        marshal(ModuleOperator::Pack, true, Ok(()), &Vec::new()).err().unwrap().message,
        "`pack` is missing its `module` operand",
    );
    let named = vec![OperatorArg::Named("module".to_string(), Ok(Argument::Value(mounted())))];
    assert_eq!(
        marshal(ModuleOperator::Pack, true, Ok(()), &named).err().unwrap().message,
        "`pack`'s `module` operand is positional",
    );
    let done = run_module_operator(
        ModuleOperator::Pack,
        true,
        Ok(()),
        &call(),
        &instances(),
        lifecycle(ImportRelation::SamePoint),
    )
    .ok()
    .unwrap();
    assert!(same_value(&done.answer, &Value::Blob("digest".to_string())));
    assert!(marshal(ModuleOperator::Reinstall, true, Ok(()), &Vec::new()).is_err());
}

#[test]
fn an_operator_is_known_by_its_name() {
    for op in [ModuleOperator::Pack, ModuleOperator::UpdateModule, ModuleOperator::Rollback, ModuleOperator::Reinstall] {
        assert_eq!(module_operator(&Expr::Name(op.name().to_string())), Some(op));
    }
    assert!(module_operator(&Expr::Name("other".to_string())).is_none());
    assert!(module_operator(&Expr::Current).is_none());
    assert!(same_value(&operand_value(None, Ok(text("p"))).unwrap(), &text("p")));
    assert!(same_value(&operand_value(Some(Ok(Cell::Scalar(text("n")))), Ok(text("p"))).unwrap(), &text("n")));
    assert_eq!(
        operand_value(Some(Ok(Cell::Collection(Vec::new()))), Ok(text("p"))).unwrap_err().message,
        "a module operator yields a scalar value",
    );
}

fn slot(container: Expr) -> Expr {
    Expr::Keys {
        base: Box::new(Expr::Field { base: Box::new(container), member: "modules".to_string(), structural: false }),
        keys: vec![Expr::Text("pay".to_string())],
    }
}

fn container() -> SlotRow {
    SlotRow {
        target: RowTarget {
            address: top_address("companies", KeyValue::single(text("acme"))),
            path: texts(&["companies"]),
        },
        steps: vec![TextStep { collection: "companies".to_string(), key: Ok("acme".to_string()) }],
        rendered: "companies/acme".to_string(),
    }
}

#[test]
fn a_slot_is_read_in_the_declared_container() {
    let dest = slot(Expr::Current);
    let parsed = SlotSyntax::parse(&dest).unwrap();
    assert_eq!(parsed.declaration, "modules");
    assert_eq!(parsed.render(), ".modules[…]");
    assert!(SlotSyntax::parse(&Expr::Current).is_none());
    let receiver = Some(container());
    let selected: Result<Option<SlotRow>, Rejection> = Ok(None);
    let root_only = vec![texts(&["modules"])];
    assert!(matches!(
        module_move(&dest, true, &receiver, &selected, &root_only),
        Some(Ok(None))
    ));
    let row_only = vec![texts(&["companies", "modules"])];
    assert!(matches!(
        module_move(&dest, true, &receiver, &selected, &row_only),
        Some(Ok(Some(_)))
    ));
    let both = vec![texts(&["modules"]), texts(&["companies", "modules"])];
    assert!(matches!(module_move(&dest, true, &receiver, &selected, &both), Some(Err(_))));
    assert!(module_move(&Expr::Name("m".to_string()), true, &receiver, &selected, &both).is_none());
    assert!(module_move(&Expr::Current, false, &receiver, &selected, &both).is_none());
    assert!(matches!(module_move(&Expr::Current, true, &receiver, &selected, &both), Some(Err(_))));
    assert!(matches!(module_move(&dest, false, &receiver, &selected, &root_only), Some(Err(_))));
    assert_eq!(mount(Some(&container()), &"modules".to_string()).ok().unwrap().as_str(), "/companies/acme/modules");
    assert_eq!(mount(None, &"modules".to_string()).ok().unwrap().as_str(), "/modules");
}

#[test]
fn a_slot_takes_a_module_under_a_name() {
    assert_eq!(instance_name(text("pay")).ok().unwrap(), "pay");
    assert!(instance_name(text("")).is_err());
    assert!(instance_name(integer(1)).is_err());
    let done = install_into(
        None,
        &"modules".to_string(),
        Ok(()),
        Ok(text("new")),
        Ok(Value::Pending("d".to_string())),
        true,
        &instances(),
        lifecycle(ImportRelation::SamePoint),
    )
    .ok()
    .unwrap();
    assert!(matches!(done.intent.unwrap(), LifecycleIntent::Install { space, name, .. }
        if space == "/modules" && name == "new"));
    assert!(install_into(
        None,
        &"modules".to_string(),
        Ok(()),
        Ok(text("new")),
        Ok(Value::Pending("d".to_string())),
        false,
        &instances(),
        lifecycle(ImportRelation::SamePoint),
    )
    .is_err());
}

#[test]
fn a_mounted_instance_is_a_row_of_its_collection() {
    let acme = top_address("companies", KeyValue::single(text("acme")));
    let modules = CollectionPath::nested(&acme, "modules".to_string());
    let pay = entry(&modules, "pay");
    assert_eq!(entry_instance(&pay).unwrap(), "pay");
    assert_eq!(require_instance_name(&pay).ok().unwrap(), "pay");
    assert_eq!(entry_instance(&sibling_named(&pay, "mail")).unwrap(), "mail");
    let numbered = RowAddress::root(AddressStep { name: "modules".to_string(), key: KeyValue::single(integer(1)) });
    assert!(entry_instance(&numbered).is_none());
    assert!(require_instance_name(&numbered).is_err());
    let pair = AddressStep { name: "r".to_string(), key: KeyValue::composite(text("a"), vec![text("b")]) };
    assert!(same_value(&step_key_value(&pair), &Value::Composite(vec![text("a"), text("b")])));
    let mut all = MountedModules { entries: Vec::new() };
    all.push(pay, "/companies/acme/modules/pay".to_string(), vec![("billing".to_string(), vec![row("x")])]);
    let root = Row {
        id: RowId { keys: vec![] },
        key: Value::Absent,
        cells: vec![("companies".to_string(), Cell::Collection(vec![row("acme"), row("zeta")]))],
    };
    let folded = all.fold_into(root, &vec![texts(&["companies", "modules"])]);
    match folded.cell("companies").unwrap() {
        Cell::Collection(rows) => {
            assert!(matches!(rows[0].cell("modules").unwrap(), Cell::Collection(m)
                if m.len() == 1 && matches!(m[0].cell("$value").unwrap(), Cell::Scalar(Value::Mounted(_)))));
            assert!(matches!(rows[1].cell("modules").unwrap(), Cell::Collection(m) if m.is_empty()));
        }
        _ => panic!("a collection stays a collection"),
    }
}

#[test]
fn a_fault_of_the_request_is_a_refusal() {
    let faults = vec![
        ModuleError::EmptyName,
        ModuleError::DuplicateName("a".to_string()),
        ModuleError::Unknown("a".to_string()),
        ModuleError::Disabled("a".to_string()),
        ModuleError::InvalidSpace("a".to_string()),
        ModuleError::MissingContainingRow("a".to_string()),
        ModuleError::InvalidBinding("a".to_string()),
        ModuleError::PeerUnresolved("a".to_string(), "b".to_string()),
    ];
    for fault in faults {
        let message = fault.text();
        let refused = fault.into_rejection().ok().unwrap();
        assert_eq!(refused.reason, RejectionReason::Malformed);
        assert_eq!(refused.message, message);
    }
    assert_eq!(
        ModuleError::ConfigMismatch("x".to_string()).into_rejection().ok().unwrap().reason,
        RejectionReason::TypeError,
    );
    let kept = vec![
        ModuleError::ExposedNarrowed("x".to_string()),
        ModuleError::InterfaceBindingWithdrawn("x".to_string()),
        ModuleError::Stale {
            prepared: ModuleUpdateBasis { at: "/m/a".to_string(), instance: basis(1) },
            current: ModuleUpdateBasis { at: "/m/a".to_string(), instance: basis(2) },
        },
        ModuleError::Engine(EngineError::Store("x".to_string())),
    ];
    for fault in kept {
        assert!(!fault.text().is_empty());
        assert!(fault.into_rejection().is_err());
    }
    assert!(matches!(
        module_update_error(UpdateError::Engine(EngineError::Store("x".to_string()))),
        ModuleError::Engine(EngineError::Store(_))
    ));
}
