//! Field-level state values, the change events that diffing them produces,
//! and the mathematical model both are specified against.
use vstd::prelude::*;

verus! {

/// The model of a state value: its fields in order, each a name and a value.
pub type FieldsView = Seq<(Seq<char>, Seq<char>)>;

/// No two fields share a name.
pub open spec fn names_unique(s: FieldsView) -> bool {
    forall|i: int, j: int| 0 <= i < j < s.len() ==> s[i].0 != s[j].0
}

/// `a` and `b` have the same field names at the same positions.
pub open spec fn same_shape(a: FieldsView, b: FieldsView) -> bool {
    a.len() == b.len() && forall|i: int| 0 <= i < a.len() ==> #[trigger] a[i].0 == b[i].0
}

pub open spec fn has_field(s: FieldsView, name: Seq<char>) -> bool {
    exists|i: int| 0 <= i < s.len() && s[i].0 == name
}

/// The position of the field called `name`; meaningful when `has_field`.
pub open spec fn index_of(s: FieldsView, name: Seq<char>) -> int {
    choose|i: int| 0 <= i < s.len() && s[i].0 == name
}

/// The value of field `name`, or the empty string when there is no such field.
pub open spec fn value_or_empty(s: FieldsView, name: Seq<char>) -> Seq<char> {
    if has_field(s, name) {
        s[index_of(s, name)].1
    } else {
        Seq::empty()
    }
}

/// The value of field `name`, if there is one.
pub open spec fn get_value(s: FieldsView, name: Seq<char>) -> Option<Seq<char>> {
    if has_field(s, name) {
        Some(s[index_of(s, name)].1)
    } else {
        None
    }
}

/// `s` with field `name` set to `v`: overwritten in place when present,
/// appended at the end otherwise.
pub open spec fn set_value(s: FieldsView, name: Seq<char>, v: Seq<char>) -> FieldsView {
    if has_field(s, name) {
        s.update(index_of(s, name), (name, v))
    } else {
        s.push((name, v))
    }
}

pub proof fn lemma_index_of(s: FieldsView, i: int)
    requires
        names_unique(s),
        0 <= i < s.len(),
    ensures
        has_field(s, s[i].0),
        index_of(s, s[i].0) == i,
        get_value(s, s[i].0) == Some(s[i].1),
        value_or_empty(s, s[i].0) == s[i].1,
{
    assert(has_field(s, s[i].0));
}

pub proof fn lemma_set_value_unique(s: FieldsView, name: Seq<char>, v: Seq<char>)
    requires
        names_unique(s),
    ensures
        names_unique(set_value(s, name, v)),
        get_value(set_value(s, name, v), name) == Some(v),
        forall|n: Seq<char>| n != name ==> get_value(set_value(s, name, v), n) == get_value(s, n),
{
    let r = set_value(s, name, v);
    if has_field(s, name) {
        let k = index_of(s, name);
        assert(names_unique(r));
        lemma_index_of(r, k);
        assert forall|n: Seq<char>| n != name implies get_value(r, n) == get_value(s, n) by {
            if has_field(s, n) {
                let j = index_of(s, n);
                lemma_index_of(r, j);
            } else {
                assert(!has_field(r, n));
            }
        }
    } else {
        assert(names_unique(r));
        lemma_index_of(r, s.len() as int);
        assert forall|n: Seq<char>| n != name implies get_value(r, n) == get_value(s, n) by {
            if has_field(s, n) {
                let j = index_of(s, n);
                lemma_index_of(r, j);
            } else {
                assert(!has_field(r, n));
            }
        }
    }
}

/// One field-level change: at `time`, field `field` of agent `agent_id`
/// went from `old_value` to `new_value`. Times are milliseconds since the
/// Unix epoch.
#[derive(Debug, PartialEq, Eq)]
pub struct StateChangeEvent {
    pub time: i64,
    pub agent_id: String,
    pub field: String,
    pub old_value: String,
    pub new_value: String,
}

/// The model of a change event.
pub struct EventView {
    pub time: i64,
    pub agent_id: Seq<char>,
    pub field: Seq<char>,
    pub old_value: Seq<char>,
    pub new_value: Seq<char>,
}

impl View for StateChangeEvent {
    type V = EventView;

    open spec fn view(&self) -> EventView {
        EventView {
            time: self.time,
            agent_id: self.agent_id@,
            field: self.field@,
            old_value: self.old_value@,
            new_value: self.new_value@,
        }
    }
}

/// The models of a sequence of events.
pub open spec fn events_view(s: Seq<StateChangeEvent>) -> Seq<EventView> {
    s.map_values(|e: StateChangeEvent| e@)
}

impl StateChangeEvent {
    /// A copy of this event.
    pub fn duplicate(&self) -> (r: StateChangeEvent)
        ensures
            r@ == self@,
    {
        StateChangeEvent {
            time: self.time,
            agent_id: self.agent_id.clone(),
            field: self.field.clone(),
            old_value: self.old_value.clone(),
            new_value: self.new_value.clone(),
        }
    }
}

/// The changes that turn state `old` into state `new`, stamped with `time`
/// and `agent_id`: one event for each field of `new`, in order, whose value
/// differs from that field's value in `old` (the empty string where `old`
/// lacks the field).
pub open spec fn diff(old: FieldsView, new: FieldsView, time: i64, agent_id: Seq<char>) -> Seq<
    EventView,
>
    decreases new.len(),
{
    if new.len() == 0 {
        Seq::empty()
    } else {
        let prev = diff(old, new.drop_last(), time, agent_id);
        let name = new.last().0;
        let v = new.last().1;
        let ov = value_or_empty(old, name);
        if ov == v {
            prev
        } else {
            prev.push(EventView { time, agent_id, field: name, old_value: ov, new_value: v })
        }
    }
}

/// Every change in a diff is stamped with the diff's time and agent.
pub proof fn lemma_diff_stamped(old: FieldsView, new: FieldsView, time: i64, agent_id: Seq<char>)
    ensures
        forall|k: int|
            0 <= k < diff(old, new, time, agent_id).len() ==> (#[trigger] diff(
                old,
                new,
                time,
                agent_id,
            )[k]).time == time && diff(old, new, time, agent_id)[k].agent_id == agent_id,
    decreases new.len(),
{
    if new.len() > 0 {
        lemma_diff_stamped(old, new.drop_last(), time, agent_id);
        let prev = diff(old, new.drop_last(), time, agent_id);
        let d = diff(old, new, time, agent_id);
        assert forall|k: int| 0 <= k < d.len() implies (#[trigger] d[k]).time == time
            && d[k].agent_id == agent_id by {
            if k < prev.len() {
                assert(d[k] == prev[k]);
            }
        }
    }
}

/// A state with no differing field produces no change.
pub proof fn lemma_diff_self_empty(s: FieldsView, time: i64, agent_id: Seq<char>)
    requires
        names_unique(s),
    ensures
        diff(s, s, time, agent_id).len() == 0,
{
    lemma_diff_prefix_empty(s, s.len() as int, time, agent_id);
    assert(s.take(s.len() as int) =~= s);
}

proof fn lemma_diff_prefix_empty(s: FieldsView, k: int, time: i64, agent_id: Seq<char>)
    requires
        names_unique(s),
        0 <= k <= s.len(),
    ensures
        diff(s, s.take(k), time, agent_id).len() == 0,
    decreases k,
{
    if k > 0 {
        lemma_diff_prefix_empty(s, k - 1, time, agent_id);
        assert(s.take(k).drop_last() =~= s.take(k - 1));
        lemma_index_of(s, k - 1);
    }
}

/// What the engine needs of a state value: reading and writing its fields
/// by name, listing them, and the changes from one value to another.
pub trait State: Sized {
    /// The fields of the value, in order.
    spec fn fields_view(&self) -> FieldsView;

    /// The value of field `field`, if the state has it.
    fn get_field(&self, field: &str) -> (r: Option<String>)
        ensures
            match r {
                Some(v) => get_value(self.fields_view(), field@) == Some(v@),
                None => get_value(self.fields_view(), field@) == None::<Seq<char>>,
            },
    ;

    /// Sets field `field` to `value`: in place where the state has the
    /// field, as a new last field where it has not.
    fn update_field(&mut self, field: &str, value: &str)
        ensures
            final(self).fields_view() == set_value(old(self).fields_view(), field@, value@),
    ;

    /// The names of the fields, in order.
    fn get_field_names(&self) -> (r: Vec<String>)
        ensures
            r@.len() == self.fields_view().len(),
            forall|i: int| 0 <= i < r@.len() ==> r@[i]@ == self.fields_view()[i].0,
    ;

    /// The changes from this state to `target` at `time`, stamped with
    /// `agent_id`: one event for each field of `target`, in order, whose
    /// value differs from this state's value of it.
    fn diff(&self, target: &Self, time: i64, agent_id: &str) -> (r: Vec<StateChangeEvent>)
        ensures
            events_view(r@) == diff(self.fields_view(), target.fields_view(), time, agent_id@),
    ;
}

impl State for StateValue {
    open spec fn fields_view(&self) -> FieldsView {
        self@
    }

    fn get_field(&self, field: &str) -> (r: Option<String>)
    {
        let name = field.to_owned();
        match self.position(&name) {
            Some(i) => Some(self.fields[i].1.clone()),
            None => None,
        }
    }

    fn update_field(&mut self, field: &str, value: &str)
    {
        proof {
            use_type_invariant(&*self);
            lemma_set_value_unique(self@, field@, value@);
        }
        let pos = self.position(&field.to_owned());
        let entry = (field.to_owned(), value.to_owned());
        let mut fields = self.duplicate().fields;
        match pos {
            Some(i) => {
                fields.set(i, entry);
            },
            None => {
                fields.push(entry);
            },
        }
        proof {
            let v = fields@.map_values(|f: (String, String)| (f.0@, f.1@));
            assert(v =~= set_value(old(self)@, field@, value@));
        }
        *self = StateValue { fields };
    }

    fn get_field_names(&self) -> (r: Vec<String>)
    {
        let mut r: Vec<String> = Vec::new();
        let mut i: usize = 0;
        while i < self.fields.len()
            invariant
                i <= self.fields@.len(),
                self@.len() == self.fields@.len(),
                r@.len() == i,
                forall|k: int| 0 <= k < i ==> r@[k]@ == self@[k].0,
            decreases self.fields@.len() - i,
        {
            r.push(self.fields[i].0.clone());
            i = i + 1;
        }
        r
    }

    fn diff(&self, target: &Self, time: i64, agent_id: &str) -> (r: Vec<StateChangeEvent>)
    {
        let mut r: Vec<StateChangeEvent> = Vec::new();
        let mut i: usize = 0;
        while i < target.fields.len()
            invariant
                i <= target.fields@.len(),
                target@.len() == target.fields@.len(),
                events_view(r@) == diff(self@, target@.take(i as int), time, agent_id@),
            decreases target.fields@.len() - i,
        {
            let name = &target.fields[i].0;
            let new_value = &target.fields[i].1;
            let old_value = match self.get_field(name.as_str()) {
                Some(v) => v,
                None => String::new(),
            };
            assert(target@.take(i + 1).drop_last() =~= target@.take(i as int));
            if !(old_value == *new_value) {
                r.push(
                    StateChangeEvent {
                        time,
                        agent_id: agent_id.to_owned(),
                        field: name.clone(),
                        old_value,
                        new_value: new_value.clone(),
                    },
                );
                assert(events_view(r@) =~= diff(self@, target@.take(i + 1), time, agent_id@));
            } else {
                assert(events_view(r@) =~= diff(self@, target@.take(i + 1), time, agent_id@));
            }
            i = i + 1;
        }
        assert(target@.take(i as int) =~= target@);
        r
    }
}

/// A state value: named fields, each holding its value serialised as a
/// string, in a fixed order and with no two fields of one name.
#[derive(Debug, PartialEq, Eq)]
pub struct StateValue {
    fields: Vec<(String, String)>,
}

impl View for StateValue {
    type V = FieldsView;

    closed spec fn view(&self) -> FieldsView {
        self.fields@.map_values(|f: (String, String)| (f.0@, f.1@))
    }
}

impl StateValue {
    /// The fields of every state have distinct names.
    #[verifier::type_invariant]
    pub open spec fn inv(&self) -> bool {
        names_unique(self@)
    }

    /// A state without fields.
    pub fn new() -> (r: StateValue)
        ensures
            r@ == Seq::<(Seq<char>, Seq<char>)>::empty(),
    {
        let r = StateValue { fields: Vec::new() };
        assert(r@ =~= Seq::<(Seq<char>, Seq<char>)>::empty());
        r
    }

    /// The position of field `field`, if the state has it.
    fn position(&self, field: &String) -> (r: Option<usize>)
        ensures
            match r {
                Some(i) => i < self@.len() && self@[i as int].0 == field@ && has_field(self@, field@)
                    && index_of(self@, field@) == i,
                None => !has_field(self@, field@),
            },
    {
        proof {
            use_type_invariant(self);
        }
        let mut i: usize = 0;
        while i < self.fields.len()
            invariant
                i <= self.fields@.len(),
                self@.len() == self.fields@.len(),
                names_unique(self@),
                forall|k: int| 0 <= k < i ==> self@[k].0 != field@,
            decreases self.fields@.len() - i,
        {
            assert(self@[i as int] == (self.fields@[i as int].0@, self.fields@[i as int].1@));
            if self.fields[i].0 == *field {
                proof {
                    lemma_index_of(self@, i as int);
                }
                return Some(i);
            }
            i = i + 1;
        }
        None
    }

    /// Whether `other` has the same field names as this state, in the same
    /// order.
    pub fn same_fields(&self, other: &StateValue) -> (r: bool)
        ensures
            r == same_shape(self@, other@),
    {
        if self.fields.len() != other.fields.len() {
            return false;
        }
        let mut i: usize = 0;
        while i < self.fields.len()
            invariant
                i <= self.fields@.len(),
                self.fields@.len() == other.fields@.len(),
                self@.len() == self.fields@.len(),
                other@.len() == other.fields@.len(),
                forall|k: int| 0 <= k < i ==> #[trigger] self@[k].0 == other@[k].0,
            decreases self.fields@.len() - i,
        {
            assert(self@[i as int].0 == self.fields@[i as int].0@);
            assert(other@[i as int].0 == other.fields@[i as int].0@);
            if !(self.fields[i].0 == other.fields[i].0) {
                return false;
            }
            i = i + 1;
        }
        true
    }

    /// A copy of this state.
    pub fn duplicate(&self) -> (r: StateValue)
        ensures
            r@ == self@,
    {
        proof {
            use_type_invariant(self);
        }
        let mut fields: Vec<(String, String)> = Vec::new();
        let mut i: usize = 0;
        while i < self.fields.len()
            invariant
                i <= self.fields@.len(),
                self@.len() == self.fields@.len(),
                fields@.len() == i,
                forall|k: int|
                    0 <= k < i ==> (#[trigger] fields@[k]).0@ == self@[k].0 && fields@[k].1@
                        == self@[k].1,
            decreases self.fields@.len() - i,
        {
            fields.push((self.fields[i].0.clone(), self.fields[i].1.clone()));
            i = i + 1;
        }
        let r = StateValue { fields };
        assert(r@ =~= self@);
        r
    }

}

impl Default for StateValue {
    fn default() -> (r: StateValue)
        ensures
            r@ == Seq::<(Seq<char>, Seq<char>)>::empty(),
    {
        StateValue::new()
    }
}

} // verus!
