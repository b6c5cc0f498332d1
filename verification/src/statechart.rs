//! Flat statecharts: which state follows on an action.
use crate::dup::Dup;
use crate::ordmap::OrdMap;
use vstd::prelude::*;

verus! {

/// A state: which state follows on each action.
pub struct State {
    pub transitions: OrdMap<String, String>,
}

/// A statechart.
pub struct StateMachine {
    /// The name of the machine.
    pub id: String,
    /// The state to start in.
    pub initial: String,
    /// The states by name.
    pub states: OrdMap<String, State>,
    /// The field of a captured body that shows the state.
    pub status_field: String,
}

/// What a state stands for.
pub type StateView = Map<Seq<char>, Seq<char>>;

#[verifier::ext_equal]
pub struct StateMachineView {
    pub id: Seq<char>,
    pub initial: Seq<char>,
    pub states: Map<Seq<char>, StateView>,
    pub status_field: Seq<char>,
}

impl DeepView for State {
    type V = StateView;

    open spec fn deep_view(&self) -> StateView {
        self.transitions.deep_view()
    }
}

impl DeepView for StateMachine {
    type V = StateMachineView;

    open spec fn deep_view(&self) -> StateMachineView {
        StateMachineView {
            id: self.id@,
            initial: self.initial@,
            states: self.states.deep_view(),
            status_field: self.status_field@,
        }
    }
}

impl Dup for State {
    fn dup(&self) -> (r: Self) {
        State { transitions: self.transitions.dup() }
    }
}

impl Dup for StateMachine {
    fn dup(&self) -> (r: Self) {
        StateMachine {
            id: self.id.clone(),
            initial: self.initial.clone(),
            states: self.states.dup(),
            status_field: self.status_field.clone(),
        }
    }
}

/// The field that shows the state if a machine names none.
pub fn default_status_field() -> (r: String)
    ensures
        r@ == "status"@,
{
    "status".to_owned()
}

/// The state that follows on an action, if the state is known and has a transition
/// for it.
pub open spec fn next_state(m: StateMachineView, current: Seq<char>, action: Seq<char>) -> Option<
    Seq<char>,
> {
    if m.states.contains_key(current) && m.states[current].contains_key(action) {
        Some(m.states[current][action])
    } else {
        None
    }
}

/// Every transition leads to a state of the machine.
pub open spec fn closed_machine(m: StateMachineView) -> bool {
    forall|s: Seq<char>, a: Seq<char>|
        #![trigger m.states[s].contains_key(a)]
        m.states.contains_key(s) && m.states[s].contains_key(a) ==> m.states.contains_key(
            m.states[s][a],
        )
}

/// The states that a walk along the actions passes through, as far as it gets.
pub open spec fn walk(m: StateMachineView, from: Seq<char>, actions: Seq<Seq<char>>) -> Option<
    Seq<char>,
>
    decreases actions.len(),
{
    if actions.len() == 0 {
        Some(from)
    } else {
        match walk(m, from, actions.drop_last()) {
            Some(s) => next_state(m, s, actions.last()),
            None => None,
        }
    }
}

/// A walk from a known state never ends in an unknown one.
pub proof fn law_walk_stays_known(m: StateMachineView, from: Seq<char>, actions: Seq<Seq<char>>)
    requires
        closed_machine(m),
        m.states.contains_key(from),
    ensures
        walk(m, from, actions) matches Some(s) ==> m.states.contains_key(s),
    decreases actions.len(),
{
    if actions.len() > 0 {
        law_walk_stays_known(m, from, actions.drop_last());
        match walk(m, from, actions.drop_last()) {
            Some(s) => {
                if m.states[s].contains_key(actions.last()) {
                    assert(m.states.contains_key(m.states[s][actions.last()]));
                }
            },
            None => {},
        }
    }
}

impl StateMachine {
    /// Whether `name` is a state of the machine.
    pub fn has_state(&self, name: &str) -> (r: bool)
        ensures
            r == self.deep_view().states.contains_key(name@),
    {
        self.states.contains_key(&name.to_owned())
    }

    /// The state that follows on an action. Nothing if the state is unknown or has
    /// no transition for the action.
    pub fn apply(&self, current_state: &str, action: &str) -> (r: Option<String>)
        ensures
            r.deep_view() == next_state(self.deep_view(), current_state@, action@),
    {
        match self.states.get(&current_state.to_owned()) {
            Some(st) => match st.transitions.get(&action.to_owned()) {
                Some(next) => Some(next.clone()),
                None => None,
            },
            None => None,
        }
    }
}

/// The registered machines by name.
pub struct StatechartRegistry {
    machines: OrdMap<String, StateMachine>,
}

/// What a registry stands for.
pub type RegistryView = Map<Seq<char>, StateMachineView>;

impl DeepView for StatechartRegistry {
    type V = RegistryView;

    closed spec fn deep_view(&self) -> RegistryView {
        self.machines.deep_view()
    }
}

/// The registry after a machine is offered under the name `id`: registered under
/// that name if its initial state is one of its states, left out otherwise.
pub open spec fn registered(
    reg: RegistryView,
    id: Seq<char>,
    machine: Option<StateMachineView>,
) -> RegistryView {
    match machine {
        Some(m) => if m.states.contains_key(m.initial) {
            reg.insert(id, StateMachineView { id, ..m })
        } else {
            reg
        },
        None => reg,
    }
}

/// A machine that shows its state in the field `status`.
pub open spec fn status_machine(
    id: Seq<char>,
    initial: Seq<char>,
    states: Map<Seq<char>, StateView>,
) -> StateMachineView {
    StateMachineView { id, initial, states, status_field: "status"@ }
}

/// A state that only `action` leaves.
pub open spec fn on(action: Seq<char>, to: Seq<char>) -> StateView {
    Map::<Seq<char>, Seq<char>>::empty().insert(action, to)
}

/// The life of a charge.
pub open spec fn charge_states() -> Map<Seq<char>, StateView> {
    Map::<Seq<char>, StateView>::empty().insert("created"@, on("capture"@, "captured"@)).insert(
        "captured"@,
        on("refund"@, "refunded"@),
    ).insert("refunded"@, Map::empty())
}

/// The life of a customer.
pub open spec fn customer_states() -> Map<Seq<char>, StateView> {
    Map::<Seq<char>, StateView>::empty().insert("active"@, on("suspend"@, "suspended"@)).insert(
        "suspended"@,
        on("reactivate"@, "active"@),
    )
}

/// The life of an invoice.
pub open spec fn invoice_states() -> Map<Seq<char>, StateView> {
    Map::<Seq<char>, StateView>::empty().insert("draft"@, on("finalize"@, "open"@)).insert(
        "open"@,
        on("pay"@, "paid"@),
    ).insert("paid"@, Map::empty())
}

/// The life of an order.
pub open spec fn order_states() -> Map<Seq<char>, StateView> {
    Map::<Seq<char>, StateView>::empty().insert("pending"@, on("pay"@, "paid"@)).insert(
        "paid"@,
        on("ship"@, "shipped"@),
    ).insert("shipped"@, on("deliver"@, "delivered"@)).insert("delivered"@, Map::empty())
}

/// The life of a subscription.
pub open spec fn subscription_states() -> Map<Seq<char>, StateView> {
    Map::<Seq<char>, StateView>::empty().insert("trialing"@, on("activate"@, "active"@)).insert(
        "active"@,
        on("pause"@, "paused"@),
    ).insert("paused"@, on("resume"@, "active"@)).insert("cancelled"@, Map::empty())
}

/// The bundled machines.
pub open spec fn bundled() -> RegistryView {
    Map::<Seq<char>, StateMachineView>::empty().insert(
        "charge"@,
        status_machine("charge"@, "created"@, charge_states()),
    ).insert("customer"@, status_machine("customer"@, "active"@, customer_states())).insert(
        "invoice"@,
        status_machine("invoice"@, "draft"@, invoice_states()),
    ).insert("order"@, status_machine("order"@, "pending"@, order_states())).insert(
        "subscription"@,
        status_machine("subscription"@, "trialing"@, subscription_states()),
    )
}

/// Every transition of a bundled machine leads to one of its states.
pub proof fn law_bundled_machines_are_closed(id: Seq<char>)
    requires
        bundled().contains_key(id),
    ensures
        closed_machine(bundled()[id]),
        bundled()[id].states.contains_key(bundled()[id].initial),
        bundled()[id].id == id,
        bundled()[id].status_field == "status"@,
{
}

fn state_on(action: &str, to: &str) -> (r: State)
    ensures
        r.deep_view() == on(action@, to@),
{
    let mut transitions: OrdMap<String, String> = OrdMap::new();
    transitions.insert(action.to_owned(), to.to_owned());
    let r = State { transitions };
    assert(r.deep_view() =~= on(action@, to@));
    r
}

fn final_state() -> (r: State)
    ensures
        r.deep_view() == Map::<Seq<char>, Seq<char>>::empty(),
{
    let r = State { transitions: OrdMap::new() };
    assert(r.deep_view() =~= Map::empty());
    r
}

fn no_states() -> (r: OrdMap<String, State>)
    ensures
        r.deep_view() == Map::<Seq<char>, StateView>::empty(),
{
    let r: OrdMap<String, State> = OrdMap::new();
    assert(r.deep_view() =~= Map::empty());
    r
}

fn add_state(states: &mut OrdMap<String, State>, name: &str, state: State)
    ensures
        final(states).deep_view() == old(states).deep_view().insert(name@, state.deep_view()),
{
    let ghost before = states.deep_view();
    let ghost sv = state.deep_view();
    states.insert(name.to_owned(), state);
    assert(states.deep_view() =~= before.insert(name@, sv));
}

fn machine(id: &str, initial: &str, states: OrdMap<String, State>) -> (r: StateMachine)
    ensures
        r.deep_view() == status_machine(id@, initial@, states.deep_view()),
{
    StateMachine {
        id: id.to_owned(),
        initial: initial.to_owned(),
        states,
        status_field: default_status_field(),
    }
}

fn charge() -> (r: StateMachine)
    ensures
        r.deep_view() == status_machine("charge"@, "created"@, charge_states()),
{
    let mut states = no_states();
    add_state(&mut states, "created", state_on("capture", "captured"));
    add_state(&mut states, "captured", state_on("refund", "refunded"));
    add_state(&mut states, "refunded", final_state());
    machine("charge", "created", states)
}

fn customer() -> (r: StateMachine)
    ensures
        r.deep_view() == status_machine("customer"@, "active"@, customer_states()),
{
    let mut states = no_states();
    add_state(&mut states, "active", state_on("suspend", "suspended"));
    add_state(&mut states, "suspended", state_on("reactivate", "active"));
    machine("customer", "active", states)
}

fn invoice() -> (r: StateMachine)
    ensures
        r.deep_view() == status_machine("invoice"@, "draft"@, invoice_states()),
{
    let mut states = no_states();
    add_state(&mut states, "draft", state_on("finalize", "open"));
    add_state(&mut states, "open", state_on("pay", "paid"));
    add_state(&mut states, "paid", final_state());
    machine("invoice", "draft", states)
}

fn order() -> (r: StateMachine)
    ensures
        r.deep_view() == status_machine("order"@, "pending"@, order_states()),
{
    let mut states = no_states();
    add_state(&mut states, "pending", state_on("pay", "paid"));
    add_state(&mut states, "paid", state_on("ship", "shipped"));
    add_state(&mut states, "shipped", state_on("deliver", "delivered"));
    add_state(&mut states, "delivered", final_state());
    machine("order", "pending", states)
}

fn subscription() -> (r: StateMachine)
    ensures
        r.deep_view() == status_machine("subscription"@, "trialing"@, subscription_states()),
{
    let mut states = no_states();
    add_state(&mut states, "trialing", state_on("activate", "active"));
    add_state(&mut states, "active", state_on("pause", "paused"));
    add_state(&mut states, "paused", state_on("resume", "active"));
    add_state(&mut states, "cancelled", final_state());
    machine("subscription", "trialing", states)
}

impl Default for StatechartRegistry {
    fn default() -> (r: Self)
        ensures
            r.deep_view() == Map::<Seq<char>, StateMachineView>::empty(),
    {
        let r = StatechartRegistry { machines: OrdMap::new() };
        assert(r.deep_view() =~= Map::empty());
        r
    }
}

impl StatechartRegistry {
    /// Takes a machine up under the name `id`. Its own name is set to that one. A
    /// machine whose initial state is missing is left out, as is one that could not
    /// be read.
    pub fn register(&mut self, id: &str, parsed: Option<StateMachine>)
        ensures
            final(self).deep_view() == registered(
                old(self).deep_view(),
                id@,
                parsed.deep_view(),
            ),
    {
        let ghost before = self.deep_view();
        match parsed {
            Some(found) => {
                let mut m = found;
                let ghost mv = m.deep_view();
                m.id = id.to_owned();
                if !m.has_state(m.initial.as_str()) {
                    return;
                }
                self.machines.insert(id.to_owned(), m);
                assert(self.deep_view() =~= registered(before, id@, Some(mv)));
            },
            None => {},
        }
    }

    /// A registry of the bundled machines: charge, customer, invoice, order and
    /// subscription.
    pub fn with_bundled_fixtures() -> (r: Self)
        ensures
            r.deep_view() == bundled(),
    {
        let mut reg: StatechartRegistry = StatechartRegistry::default();
        reg.register("charge", Some(charge()));
        reg.register("customer", Some(customer()));
        reg.register("invoice", Some(invoice()));
        reg.register("order", Some(order()));
        reg.register("subscription", Some(subscription()));
        assert(reg.deep_view() =~= bundled());
        reg
    }

    /// The machine of this name.
    pub fn get(&self, id: &str) -> (r: Option<&StateMachine>)
        ensures
            match r {
                Some(m) => self.deep_view().contains_key(id@) && self.deep_view()[id@]
                    == m.deep_view(),
                None => !self.deep_view().contains_key(id@),
            },
    {
        self.machines.get(&id.to_owned())
    }

    /// The number of machines.
    pub fn len(&self) -> (r: usize)
        ensures
            r == self.deep_view().dom().len(),
    {
        assert(self.deep_view().dom() =~= self.machines@.dom());
        self.machines.len()
    }

    /// Whether there is no machine.
    pub fn is_empty(&self) -> (r: bool)
        ensures
            r == (self.deep_view() == Map::<Seq<char>, StateMachineView>::empty()),
    {
        let r = self.machines.is_empty();
        proof {
            if r {
                assert(self.deep_view() =~= Map::empty());
            } else if self.deep_view() == Map::<Seq<char>, StateMachineView>::empty() {
                assert(self.machines@.dom() =~= self.deep_view().dom());
                assert(self.machines@ =~= Map::empty());
            }
        }
        r
    }

    /// The state that follows on an action in the machine of this name. Nothing if
    /// there is no such machine or no such transition.
    pub fn apply(&self, machine_id: &str, current_state: &str, action: &str) -> (r: Option<String>)
        ensures
            r.deep_view() == registry_next(
                self.deep_view(),
                machine_id@,
                current_state@,
                action@,
            ),
    {
        match self.get(machine_id) {
            Some(m) => m.apply(current_state, action),
            None => None,
        }
    }

    /// Takes a machine up under its own name as it is.
    pub fn insert_for_test(&mut self, machine: StateMachine)
        ensures
            final(self).deep_view() == old(self).deep_view().insert(
                machine.id@,
                machine.deep_view(),
            ),
    {
        let ghost before = self.deep_view();
        let ghost mv = machine.deep_view();
        let id = machine.id.clone();
        self.machines.insert(id, machine);
        assert(self.deep_view() =~= before.insert(mv.id, mv));
    }
}

/// The transitions of the bundled machines: from which state an action leads to which.
pub open spec fn bundled_transition(
    id: Seq<char>,
    from: Seq<char>,
    action: Seq<char>,
    to: Seq<char>,
) -> bool {
    ||| id == "charge"@ && from == "created"@ && action == "capture"@ && to == "captured"@
    ||| id == "charge"@ && from == "captured"@ && action == "refund"@ && to == "refunded"@
    ||| id == "customer"@ && from == "active"@ && action == "suspend"@ && to == "suspended"@
    ||| id == "customer"@ && from == "suspended"@ && action == "reactivate"@ && to == "active"@
    ||| id == "invoice"@ && from == "draft"@ && action == "finalize"@ && to == "open"@
    ||| id == "invoice"@ && from == "open"@ && action == "pay"@ && to == "paid"@
    ||| id == "order"@ && from == "pending"@ && action == "pay"@ && to == "paid"@
    ||| id == "order"@ && from == "paid"@ && action == "ship"@ && to == "shipped"@
    ||| id == "order"@ && from == "shipped"@ && action == "deliver"@ && to == "delivered"@
    ||| id == "subscription"@ && from == "trialing"@ && action == "activate"@ && to == "active"@
    ||| id == "subscription"@ && from == "active"@ && action == "pause"@ && to == "paused"@
    ||| id == "subscription"@ && from == "paused"@ && action == "resume"@ && to == "active"@
}

/// The bundled machines move by their transitions and by no others.
pub proof fn law_bundled_machines_move(
    id: Seq<char>,
    from: Seq<char>,
    action: Seq<char>,
    to: Seq<char>,
)
    requires
        bundled().contains_key(id),
    ensures
        next_state(bundled()[id], from, action) == Some(to) <==> bundled_transition(
            id,
            from,
            action,
            to,
        ),
{
    reveal_strlit("charge");
    reveal_strlit("customer");
    reveal_strlit("invoice");
    reveal_strlit("order");
    reveal_strlit("subscription");
    assert("charge"@.len() == 6 && "customer"@.len() == 8 && "invoice"@.len() == 7
        && "order"@.len() == 5 && "subscription"@.len() == 12);
    reveal_strlit("created");
    reveal_strlit("captured");
    reveal_strlit("refunded");
    assert("created"@[0] == 'c' && "created"@[1] == 'r');
    assert("captured"@[0] == 'c' && "captured"@[1] == 'a');
    assert("refunded"@[0] == 'r');
    reveal_strlit("active");
    reveal_strlit("suspended");
    assert("active"@[0] == 'a' && "suspended"@[0] == 's');
    reveal_strlit("draft");
    reveal_strlit("open");
    reveal_strlit("paid");
    assert("draft"@[0] == 'd' && "open"@[0] == 'o' && "paid"@[0] == 'p' && "paid"@[1] == 'a'
        && "paid"@[2] == 'i');
    reveal_strlit("pending");
    reveal_strlit("shipped");
    reveal_strlit("delivered");
    assert("pending"@[1] == 'e' && "shipped"@[0] == 's' && "delivered"@[0] == 'd');
    reveal_strlit("trialing");
    reveal_strlit("paused");
    reveal_strlit("cancelled");
    assert("trialing"@[0] == 't' && "paused"@[0] == 'p' && "cancelled"@[0] == 'c');
}

/// A machine moves along its own transitions, and from a state or by an action that it
/// does not have it does not move.
pub proof fn law_machine_moves_along_transitions(
    m: StateMachineView,
    from: Seq<char>,
    action: Seq<char>,
)
    ensures
        m.states.contains_key(from) && m.states[from].contains_key(action) ==> next_state(
            m,
            from,
            action,
        ) == Some(m.states[from][action]),
        !m.states.contains_key(from) ==> next_state(m, from, action) is None,
        m.states.contains_key(from) && !m.states[from].contains_key(action) ==> next_state(
            m,
            from,
            action,
        ) is None,
{
}

/// A machine is registered under the given name, which becomes its own, and as it is
/// otherwise; one whose initial state is none of its states is not. No other machine is
/// touched.
pub proof fn law_registered_machine_is_found(
    reg: RegistryView,
    id: Seq<char>,
    m: StateMachineView,
    other: Seq<char>,
)
    ensures
        m.states.contains_key(m.initial) ==> registered(reg, id, Some(m)).contains_key(id)
            && registered(reg, id, Some(m))[id].id == id && registered(reg, id, Some(m))[id].initial
            == m.initial && registered(reg, id, Some(m))[id].states == m.states && registered(
            reg,
            id,
            Some(m),
        )[id].status_field == m.status_field,
        !m.states.contains_key(m.initial) ==> registered(reg, id, Some(m)) == reg,
        registered(reg, id, None) == reg,
        other != id ==> registered(reg, id, Some(m)).contains_key(other) == reg.contains_key(other)
            && (reg.contains_key(other) ==> registered(reg, id, Some(m))[other] == reg[other]),
{
}

/// The state that follows on an action in the machine of this name.
pub open spec fn registry_next(
    reg: RegistryView,
    id: Seq<char>,
    current: Seq<char>,
    action: Seq<char>,
) -> Option<Seq<char>> {
    if reg.contains_key(id) {
        next_state(reg[id], current, action)
    } else {
        None
    }
}

/// A registered machine moves along its transitions; an unknown one does not move.
pub proof fn law_registry_moves(
    reg: RegistryView,
    id: Seq<char>,
    current: Seq<char>,
    action: Seq<char>,
)
    ensures
        reg.contains_key(id) && reg[id].states.contains_key(current)
            && reg[id].states[current].contains_key(action) ==> registry_next(
            reg,
            id,
            current,
            action,
        ) == Some(reg[id].states[current][action]),
        !reg.contains_key(id) || !reg[id].states.contains_key(current)
            || !reg[id].states[current].contains_key(action) ==> registry_next(
            reg,
            id,
            current,
            action,
        ) is None,
{
}

} // verus!
