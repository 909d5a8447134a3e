use vstd::prelude::*;
use vstd::string::StringSliceAdditionalSpecFns;
use crate::cubes::{first_at, lemma_first_at_unique, split, split_once};
use crate::labels::LabelCompression;
use crate::pulses::{ModuleType, System};

verus! {

/// Why a text describes no system of modules.
#[derive(Debug, Clone, Copy, PartialEq, Eq)]
pub enum SystemError {
    /// A line has no arrow.
    InvalidModule,
    /// No module is called `broadcaster`.
    NoBroadcaster,
}

/// The arrow between a module and the modules that it sends to: ` -> `.
pub open spec fn arrow() -> Seq<u8> {
    seq![' ' as u8, '-' as u8, '>' as u8, ' ' as u8]
}

/// What stands between the modules that a module sends to: a comma and a
/// space.
pub open spec fn comma() -> Seq<u8> {
    seq![',' as u8, ' ' as u8]
}

/// The label of the module that sends the first pulse.
pub open spec fn broadcaster() -> Seq<u8> {
    seq![
        'b' as u8,
        'r' as u8,
        'o' as u8,
        'a' as u8,
        'd' as u8,
        'c' as u8,
        'a' as u8,
        's' as u8,
        't' as u8,
        'e' as u8,
        'r' as u8,
    ]
}

/// The first newline of `text` stands at `at`.
pub open spec fn newline_at(text: Seq<u8>, at: int) -> bool {
    &&& 0 <= at < text.len()
    &&& text[at] == '\n' as u8
    &&& forall|before: int| 0 <= before < at ==> text[before] != '\n' as u8
}

/// A line without the carriage return at its end, if it has one.
pub open spec fn without_return(line: Seq<u8>) -> Seq<u8> {
    if line.len() > 0 && line.last() == '\r' as u8 {
        line.drop_last()
    } else {
        line
    }
}

/// The lines of a text. A line ends with a newline, before which a
/// carriage return may stand; neither belongs to the line. The last line
/// need not end with a newline, and is kept as it is then.
pub open spec fn text_lines(text: Seq<u8>) -> Seq<Seq<u8>>
    decreases text.len(),
{
    if text.len() == 0 {
        Seq::empty()
    } else if exists|at: int| newline_at(text, at) {
        let at = choose|at: int| newline_at(text, at);
        seq![without_return(text.take(at))] + text_lines(text.skip(at + 1))
    } else {
        seq![text]
    }
}

/// The first line of `text` and what follows it.
pub(crate) fn next_line<'a>(text: &'a [u8]) -> (cut: (&'a [u8], &'a [u8]))
    requires
        text@.len() > 0,
    ensures
        text_lines(text@) == seq![cut.0@] + text_lines(cut.1@),
        cut.0@.len() + cut.1@.len() <= text@.len(),
        cut.1@.len() < text@.len(),
{
    let len = text.len();
    let mut at: usize = 0;
    while at < len && text[at] != '\n' as u8
        invariant
            len == text@.len(),
            at <= len,
            forall|before: int| 0 <= before < at ==> text@[before] != '\n' as u8,
        decreases len - at,
    {
        at += 1;
    }
    if at == len {
        proof {
            assert forall|found: int| !newline_at(text@, found) by {}
            assert(text_lines(Seq::<u8>::empty()) =~= Seq::<Seq<u8>>::empty());
            assert(text_lines(text@) =~= seq![text@] + Seq::<Seq<u8>>::empty());
        }
        let tail = &text[len..len];
        proof {
            assert(tail@ =~= Seq::<u8>::empty());
        }
        (text, tail)
    } else {
        proof {
            assert(newline_at(text@, at as int));
            let found = choose|found: int| newline_at(text@, found);
            assert(found == at) by {
                if found < at {
                    assert(text@[found] != '\n' as u8);
                } else if at < found {
                    assert(text@[at as int] != '\n' as u8);
                }
            }
            assert(text@.subrange(at + 1, len as int) =~= text@.skip(at + 1));
            assert(text@.subrange(0, at as int) =~= text@.take(at as int));
        }
        let tail = &text[at + 1..len];
        if at > 0 && text[at - 1] == '\r' as u8 {
            proof {
                assert(text@.take(at as int).last() == text@[at - 1]);
                assert(text@.subrange(0, at - 1) =~= text@.take(at as int).drop_last());
            }
            (&text[0..at - 1], tail)
        } else {
            (&text[0..at], tail)
        }
    }
}

/// The label of the module that `left` names: what follows its mark.
pub open spec fn name_of(left: Seq<u8>) -> Seq<u8> {
    if left.len() > 0 && (left[0] == '%' as u8 || left[0] == '&' as u8) {
        left.skip(1)
    } else {
        left
    }
}

/// The kind of the module that `left` names: `%` marks a flip-flop, `&` a
/// conjunction, and a module without a mark broadcasts.
pub open spec fn kind_of(left: Seq<u8>) -> ModuleType {
    if left.len() > 0 && left[0] == '%' as u8 {
        ModuleType::FlipFlop
    } else if left.len() > 0 && left[0] == '&' as u8 {
        ModuleType::Conjunction
    } else {
        ModuleType::Broadcast
    }
}

/// What a line declares: the module before its first arrow, with its mark,
/// and the labels behind the arrow that commas part. A line without an
/// arrow declares nothing.
pub open spec fn declared(line: Seq<u8>) -> Option<(Seq<u8>, Seq<Seq<u8>>)> {
    if exists|at: int| first_at(line, arrow(), at) {
        let at = choose|at: int| first_at(line, arrow(), at);
        Some((line.take(at), split(line.skip(at + arrow().len()), comma())))
    } else {
        None
    }
}

/// The modules that have been read: the number of each label, and for each
/// number the kind of the module, its wires, and how many wires arrive at
/// it.
pub struct Plan {
    pub numbers: Map<Seq<u8>, usize>,
    pub types: Seq<ModuleType>,
    pub wires: Seq<Seq<(usize, usize)>>,
    pub arrivals: Seq<int>,
}

impl Plan {
    /// Nothing has been read.
    pub open spec fn empty() -> Plan {
        Plan {
            numbers: Map::empty(),
            types: Seq::empty(),
            wires: Seq::empty(),
            arrivals: Seq::empty(),
        }
    }

    /// The number of modules.
    pub open spec fn count(self) -> int {
        self.types.len() as int
    }

    /// The plan after `label` has been met: a label that has no number yet
    /// gets the next one, and stands for a module that broadcasts, without
    /// wires, until a line declares it.
    pub open spec fn with_label(self, label: Seq<u8>) -> Plan {
        if self.numbers.dom().contains(label) {
            self
        } else {
            Plan {
                numbers: self.numbers.insert(label, self.count() as usize),
                types: self.types.push(ModuleType::Broadcast),
                wires: self.wires.push(Seq::empty()),
                arrivals: self.arrivals.push(0),
            }
        }
    }

    /// The plan after a wire from module `from` to the module `label` has
    /// been read: the wire arrives at the next input of that module.
    pub open spec fn with_wire(self, from: int, label: Seq<u8>) -> Plan {
        let known = self.with_label(label);
        let to = known.numbers[label] as int;
        Plan {
            wires: known.wires.update(
                from,
                known.wires[from].push((to as usize, known.arrivals[to] as usize)),
            ),
            arrivals: known.arrivals.update(to, known.arrivals[to] + 1),
            ..known
        }
    }

    /// The plan after the wires from module `from` to the first `upto` of
    /// the modules `labels` have been read.
    pub open spec fn with_wires(self, from: int, labels: Seq<Seq<u8>>, upto: int) -> Plan
        decreases upto,
    {
        if upto <= 0 {
            self
        } else {
            self.with_wires(from, labels, upto - 1).with_wire(from, labels[upto - 1])
        }
    }

    /// The plan after a line has been read that declares the module `left`
    /// with wires to the modules `labels`: the module is of the kind that
    /// its mark says, and its wires are those of this line.
    pub open spec fn with_module(self, left: Seq<u8>, labels: Seq<Seq<u8>>) -> Plan {
        let known = self.with_label(name_of(left));
        let module = known.numbers[name_of(left)] as int;
        Plan {
            types: known.types.update(module, kind_of(left)),
            wires: known.wires.update(module, Seq::empty()),
            ..known
        }.with_wires(module, labels, labels.len() as int)
    }

    /// The plan after the first `upto` of the lines have been read, or
    /// nothing if one of them declares nothing.
    pub open spec fn after(lines: Seq<Seq<u8>>, upto: int) -> Option<Plan>
        decreases upto,
    {
        if upto <= 0 {
            Some(Plan::empty())
        } else {
            match (Plan::after(lines, upto - 1), declared(lines[upto - 1])) {
                (Some(plan), Some((left, labels))) => Some(plan.with_module(left, labels)),
                _ => None,
            }
        }
    }

    /// How many places of the state module `module` has: a flip-flop one,
    /// a conjunction one for each wire that arrives at it.
    pub open spec fn share(self, module: int) -> int {
        match self.types[module] {
            ModuleType::Broadcast => 0,
            ModuleType::FlipFlop => 1,
            ModuleType::Conjunction => self.arrivals[module],
        }
    }

    /// How many places of the state the first `upto` modules have.
    pub open spec fn offset(self, upto: int) -> int
        decreases upto,
    {
        if upto <= 0 {
            0
        } else {
            self.offset(upto - 1) + self.share(upto - 1)
        }
    }

    /// How many wires arrive at the first `upto` modules.
    pub open spec fn arrived(self, upto: int) -> int
        decreases upto,
    {
        if upto <= 0 {
            0
        } else {
            self.arrived(upto - 1) + self.arrivals[upto - 1]
        }
    }

    /// How many modules there are and how many wires arrive at them,
    /// together.
    pub open spec fn size(self) -> int {
        self.count() + self.arrived(self.count())
    }

    /// The plan is sound: the labels are numbered with the numbers of the
    /// modules, each given once, and every wire arrives at an input of a
    /// module.
    pub open spec fn sound(self) -> bool {
        &&& self.numbers.dom().finite()
        &&& self.numbers.dom().len() == self.count()
        &&& self.wires.len() == self.count()
        &&& self.arrivals.len() == self.count()
        &&& self.count() <= usize::MAX
        &&& forall|label: Seq<u8>|
            self.numbers.dom().contains(label) ==> (#[trigger] self.numbers[label]) < self.count()
        &&& forall|module: int| 0 <= module < self.count() ==> 0 <= #[trigger] self.arrivals[module]
        &&& forall|module: int, wire: int|
            0 <= module < self.count() && 0 <= wire < self.wires[module].len() ==> (
            #[trigger] self.wires[module][wire]).0 < self.count() && self.wires[module][wire].1
                < self.arrivals[self.wires[module][wire].0 as int]
    }
}

impl Plan {
    /// Where the same numbers of wires arrive, as many arrive in all.
    proof fn lemma_arrived_same(self, other: Plan, upto: int)
        requires
            0 <= upto <= self.arrivals.len(),
            upto <= other.arrivals.len(),
            forall|module: int| 0 <= module < upto ==> self.arrivals[module] == other.arrivals[module],
        ensures
            self.arrived(upto) == other.arrived(upto),
        decreases upto,
    {
        if upto > 0 {
            self.lemma_arrived_same(other, upto - 1);
        }
    }

    /// Where one more wire arrives at one module, one more arrives in all.
    proof fn lemma_arrived_more(self, other: Plan, to: int, upto: int)
        requires
            0 <= to < self.arrivals.len(),
            0 <= upto <= self.arrivals.len(),
            other.arrivals == self.arrivals.update(to, self.arrivals[to] + 1),
        ensures
            other.arrived(upto) == self.arrived(upto) + if to < upto {
                1int
            } else {
                0int
            },
        decreases upto,
    {
        if upto > 0 {
            self.lemma_arrived_more(other, to, upto - 1);
        }
    }

    /// No more wires arrive at one module than at all.
    proof fn lemma_arrived_at_least(self, module: int, upto: int)
        requires
            0 <= module < upto <= self.arrivals.len(),
            forall|any: int| 0 <= any < self.arrivals.len() ==> 0 <= #[trigger] self.arrivals[any],
        ensures
            self.arrivals[module] <= self.arrived(upto),
            0 <= self.arrived(upto),
        decreases upto,
    {
        self.lemma_arrived_not_negative(upto - 1);
        if module < upto - 1 {
            self.lemma_arrived_at_least(module, upto - 1);
        }
    }

    /// No fewer than no wires arrive.
    proof fn lemma_arrived_not_negative(self, upto: int)
        requires
            upto <= self.arrivals.len(),
            forall|any: int| 0 <= any < self.arrivals.len() ==> 0 <= #[trigger] self.arrivals[any],
        ensures
            0 <= self.arrived(upto),
        decreases upto,
    {
        if upto > 0 {
            self.lemma_arrived_not_negative(upto - 1);
        }
    }

    /// The state of the first modules has no more places than there are
    /// modules and wires that arrive at them.
    proof fn lemma_offset_at_most(self, upto: int)
        requires
            0 <= upto <= self.count(),
            self.sound(),
        ensures
            0 <= self.offset(upto) <= upto + self.arrived(upto),
            upto + self.arrived(upto) <= self.size(),
        decreases self.count() - upto,
    {
        self.lemma_offset_step(upto);
        if upto < self.count() {
            self.lemma_offset_at_most(upto + 1);
        }
    }

    /// The places of the state of the first modules, counted one by one.
    proof fn lemma_offset_step(self, upto: int)
        requires
            0 <= upto <= self.count(),
            self.sound(),
        ensures
            0 <= self.offset(upto) <= upto + self.arrived(upto),
        decreases upto,
    {
        if upto > 0 {
            self.lemma_offset_step(upto - 1);
        }
    }

    /// A label that is met leaves the plan sound, and adds at most a
    /// module.
    proof fn lemma_with_label(self, label: Seq<u8>)
        requires
            self.sound(),
            self.count() < usize::MAX,
        ensures
            self.with_label(label).sound(),
            self.with_label(label).numbers.dom().contains(label),
            self.with_label(label).numbers == self.numbers.insert(
                label,
                self.with_label(label).numbers[label],
            ),
            self.count() <= self.with_label(label).count() <= self.count() + 1,
            self.with_label(label).size() <= self.size() + 1,
            self.with_label(label).numbers[label] == if self.numbers.dom().contains(label) {
                self.numbers[label]
            } else {
                self.count() as usize
            },
    {
        let known = self.with_label(label);
        if self.numbers.dom().contains(label) {
            assert(self.numbers =~= self.numbers.insert(label, self.numbers[label]));
        } else {
            assert(known.numbers.dom() =~= self.numbers.dom().insert(label));
            self.lemma_arrived_same(known, self.count());
            assert forall|module: int, wire: int|
                0 <= module < known.count() && 0 <= wire < known.wires[module].len() implies (
            #[trigger] known.wires[module][wire]).0 < known.count() && known.wires[module][wire].1
                < known.arrivals[known.wires[module][wire].0 as int] by {
                assert(known.wires[module] == self.wires[module]);
                assert(self.wires[module][wire].0 < self.count());
            }
        }
    }

    /// A wire that is read leaves the plan sound, and adds at most a module
    /// and a wire that arrives.
    proof fn lemma_with_wire(self, from: int, label: Seq<u8>)
        requires
            self.sound(),
            self.count() < usize::MAX,
            0 <= from < self.count(),
        ensures
            self.with_wire(from, label).sound(),
            self.count() <= self.with_wire(from, label).count() <= self.count() + 1,
            self.with_wire(from, label).size() <= self.size() + 2,
            self.with_wire(from, label).numbers == self.with_label(label).numbers,
            self.with_wire(from, label).types == self.with_label(label).types,
    {
        self.lemma_with_label(label);
        let known = self.with_label(label);
        let to = known.numbers[label] as int;
        let wired = self.with_wire(from, label);
        known.lemma_arrived_more(wired, to, known.count());
        assert forall|module: int, wire: int|
            0 <= module < wired.count() && 0 <= wire < wired.wires[module].len() implies (
        #[trigger] wired.wires[module][wire]).0 < wired.count() && wired.wires[module][wire].1
            < wired.arrivals[wired.wires[module][wire].0 as int] by {
            if module == from && wire == known.wires[from].len() {
            } else {
                assert(wired.wires[module][wire] == known.wires[module][wire]);
                assert(known.wires[module][wire].0 < known.count());
            }
        }
    }
}

/// What has been read stands in the plan: the numbers of the labels, the
/// kinds of the modules, their wires, but for those of module `held`, and
/// how many wires arrive at each.
pub open spec fn mirrors(
    plan: Plan,
    labels: LabelCompression,
    types: Seq<ModuleType>,
    wires: Seq<Vec<(usize, usize)>>,
    in_degrees: Seq<usize>,
    held: int,
) -> bool {
    &&& labels.wf()
    &&& labels.numbers() == plan.numbers
    &&& types == plan.types
    &&& wires.len() == plan.wires.len()
    &&& forall|module: int|
        0 <= module < wires.len() && module != held ==> (#[trigger] wires[module])@
            == plan.wires[module]
    &&& in_degrees.len() == plan.arrivals.len()
    &&& forall|module: int|
        0 <= module < in_degrees.len() ==> (#[trigger] in_degrees[module]) as int
            == plan.arrivals[module]
}

/// The number of the module `label`, which is added to the modules if it
/// has not been met.
fn meet(
    labels: &mut LabelCompression,
    types: &mut Vec<ModuleType>,
    wires: &mut Vec<Vec<(usize, usize)>>,
    in_degrees: &mut Vec<usize>,
    label: &[u8],
    Ghost(plan): Ghost<Plan>,
    Ghost(held): Ghost<int>,
) -> (number: usize)
    requires
        plan.sound(),
        plan.count() < usize::MAX,
        held < plan.count(),
        mirrors(plan, *old(labels), old(types)@, old(wires)@, old(in_degrees)@, held),
    ensures
        mirrors(
            plan.with_label(label@),
            *final(labels),
            final(types)@,
            final(wires)@,
            final(in_degrees)@,
            held,
        ),
        number == plan.with_label(label@).numbers[label@],
        number < plan.with_label(label@).count(),
{
    proof {
        plan.lemma_with_label(label@);
    }
    let number = labels.number(label);
    if number == types.len() {
        types.push(ModuleType::Broadcast);
        wires.push(Vec::new());
        in_degrees.push(0);
        proof {
            assert(!plan.numbers.dom().contains(label@));
        }
    } else {
        proof {
            if !plan.numbers.dom().contains(label@) {
                assert(number == plan.count());
            }
        }
    }
    number
}

/// Reads a wire from module `from` to the module `label`, and adds it to
/// `out`.
fn wire_to(
    labels: &mut LabelCompression,
    types: &mut Vec<ModuleType>,
    wires: &mut Vec<Vec<(usize, usize)>>,
    in_degrees: &mut Vec<usize>,
    out: &mut Vec<(usize, usize)>,
    label: &[u8],
    Ghost(plan): Ghost<Plan>,
    Ghost(from): Ghost<int>,
)
    requires
        plan.sound(),
        plan.size() + 2 <= usize::MAX,
        0 <= from < plan.count(),
        mirrors(plan, *old(labels), old(types)@, old(wires)@, old(in_degrees)@, from),
        old(out)@ == plan.wires[from],
    ensures
        mirrors(
            plan.with_wire(from, label@),
            *final(labels),
            final(types)@,
            final(wires)@,
            final(in_degrees)@,
            from,
        ),
        final(out)@ == plan.with_wire(from, label@).wires[from],
{
    proof {
        plan.lemma_arrived_not_negative(plan.count());
        plan.lemma_with_label(label@);
        plan.lemma_with_wire(from, label@);
        let known = plan.with_label(label@);
        known.lemma_arrived_at_least(known.numbers[label@] as int, known.count());
    }
    let to = meet(labels, types, wires, in_degrees, label, Ghost(plan), Ghost(from));
    let arrived = in_degrees[to];
    in_degrees[to] = arrived + 1;
    out.push((to, arrived));
}

/// Where the state of each module begins, and behind the last module how
/// many places the state of all of them has. `in_degrees` holds how many
/// wires arrive at each module.
fn lay_out(types: &Vec<ModuleType>, in_degrees: Vec<usize>, Ghost(plan): Ghost<Plan>) -> (offsets:
    Vec<usize>)
    requires
        plan.sound(),
        plan.size() <= usize::MAX,
        types@ == plan.types,
        in_degrees@.len() == plan.arrivals.len(),
        forall|module: int|
            0 <= module < in_degrees@.len() ==> (#[trigger] in_degrees@[module]) as int
                == plan.arrivals[module],
    ensures
        offsets@.len() == plan.count() + 1,
        forall|module: int|
            0 <= module <= plan.count() ==> (#[trigger] offsets@[module]) as int == plan.offset(
                module,
            ),
{
    let mut offsets = in_degrees;
    let mut state_len: usize = 0;
    let mut module: usize = 0;
    while module < types.len()
        invariant
            plan.sound(),
            plan.size() <= usize::MAX,
            types@ == plan.types,
            offsets@.len() == plan.arrivals.len(),
            module <= types@.len(),
            state_len == plan.offset(module as int),
            forall|later: int|
                module <= later < offsets@.len() ==> (#[trigger] offsets@[later]) as int
                    == plan.arrivals[later],
            forall|earlier: int|
                0 <= earlier < module ==> (#[trigger] offsets@[earlier]) as int == plan.offset(
                    earlier,
                ),
        decreases types@.len() - module,
    {
        proof {
            plan.lemma_offset_at_most(module + 1);
        }
        let offset = state_len;
        state_len = state_len + match types[module] {
            ModuleType::Broadcast => 0,
            ModuleType::FlipFlop => 1,
            ModuleType::Conjunction => offsets[module],
        };
        offsets[module] = offset;
        module += 1;
    }
    offsets.push(state_len);
    offsets
}

/// The bytes of the label of the module that sends the first pulse.
fn first_module() -> (label: [u8; 11])
    ensures
        label@ == broadcaster(),
{
    let label = [
        'b' as u8,
        'r' as u8,
        'o' as u8,
        'a' as u8,
        'd' as u8,
        'c' as u8,
        'a' as u8,
        's' as u8,
        't' as u8,
        'e' as u8,
        'r' as u8,
    ];
    assert(label@ =~= broadcaster());
    label
}

/// The system holds what the plan says, with the module `broadcaster` as
/// the one that sends the first pulse.
pub open spec fn built(system: System, plan: Plan) -> bool {
    &&& plan.numbers.dom().contains(broadcaster())
    &&& system.broadcast_module == plan.numbers[broadcaster()]
    &&& system.types@ == plan.types
    &&& system.wires@.len() == plan.wires.len()
    &&& forall|module: int|
        0 <= module < plan.count() ==> (#[trigger] system.wires@[module])@ == plan.wires[module]
    &&& system.state_offsets@.len() == plan.count() + 1
    &&& forall|module: int|
        0 <= module <= plan.count() ==> (#[trigger] system.state_offsets@[module]) as int
            == plan.offset(module)
}

/// A system built from a sound plan is wired up soundly, if its first pulse
/// can arrive.
pub proof fn lemma_built_is_sound(system: System, plan: Plan)
    requires
        plan.sound(),
        built(system, plan),
        system.arrives(system.broadcast_module as int, 0),
    ensures
        system.wf(plan.offset(plan.count())),
{
    assert forall|module: int| 0 <= module < system.types@.len() implies system.begin(module)
        <= #[trigger] system.begin(module + 1) <= plan.offset(plan.count()) by {
        lemma_offsets_grow(plan, module + 1, plan.count());
        assert(plan.offset(module + 1) == plan.offset(module) + plan.share(module));
    }
    assert forall|module: int|
        0 <= module < system.types@.len() && #[trigger] system.types@[module]
            == ModuleType::FlipFlop implies system.begin(module) < system.begin(module + 1) by {
        assert(plan.offset(module + 1) == plan.offset(module) + plan.share(module));
    }
    assert forall|module: int, wire: int|
        0 <= module < system.types@.len() && 0 <= wire < system.wires@[module]@.len() implies (
    #[trigger] system.wires@[module]@[wire]).0 < system.types@.len() && system.arrives(
        system.wires@[module]@[wire].0 as int,
        system.wires@[module]@[wire].1 as int,
    ) by {
        assert(system.wires@[module]@ == plan.wires[module]);
        let to = plan.wires[module][wire].0 as int;
        assert(plan.wires[module][wire].1 < plan.arrivals[to]);
        assert(plan.offset(to + 1) == plan.offset(to) + plan.share(to));
    }
}

/// The state of more modules has no fewer places.
pub proof fn lemma_offsets_grow(plan: Plan, fewer: int, more: int)
    requires
        plan.sound(),
        0 <= fewer <= more <= plan.count(),
    ensures
        plan.offset(fewer) <= plan.offset(more),
    decreases more - fewer,
{
    if fewer < more {
        lemma_offsets_grow(plan, fewer, more - 1);
    }
}

impl System {
    /// Reads a system of modules, one module on each line: its label, with
    /// `%` before it if it is a flip-flop and `&` if it is a conjunction,
    /// then ` -> ` and the labels of the modules that it sends to, with
    /// `, ` between them. The modules are numbered in the order in which
    /// their labels are first met, and every wire arrives at the next input
    /// of its module. A module that no line declares broadcasts and has no
    /// wires; of two lines that declare one module the later one counts.
    ///
    /// A line without an arrow is a fault, and so is a text in which no
    /// module is called `broadcaster`.
    pub fn from_str(s: &str) -> (read: Result<System, SystemError>)
        ensures
            match read {
                Ok(system) => Plan::after(
                    text_lines(s.spec_bytes()),
                    text_lines(s.spec_bytes()).len() as int,
                ) matches Some(plan) && plan.sound() && built(system, plan),
                Err(SystemError::InvalidModule) => Plan::after(
                    text_lines(s.spec_bytes()),
                    text_lines(s.spec_bytes()).len() as int,
                ) is None,
                Err(SystemError::NoBroadcaster) => Plan::after(
                    text_lines(s.spec_bytes()),
                    text_lines(s.spec_bytes()).len() as int,
                ) matches Some(plan) && !plan.numbers.dom().contains(broadcaster()),
            },
    {
        let text = s.as_bytes();
        let length = text.len();
        let to = [' ' as u8, '-' as u8, '>' as u8, ' ' as u8];
        let and = [',' as u8, ' ' as u8];
        proof {
            assert(to@ =~= arrow());
            assert(and@ =~= comma());
        }
        let mut types: Vec<ModuleType> = Vec::new();
        let mut wires: Vec<Vec<(usize, usize)>> = Vec::new();
        let mut in_degrees: Vec<usize> = Vec::new();
        let mut labels = LabelCompression::new();
        let ghost lines = text_lines(text@);
        let ghost mut plan = Plan::empty();
        let ghost mut done: int = 0;
        let mut rest = text;
        proof {
            assert(lines.skip(0) =~= lines);
            assert(labels.numbers() =~= plan.numbers);
        }
        while rest.len() > 0
            invariant
                text@ == s.spec_bytes(),
                length == text@.len(),
                to@ == arrow(),
                and@ == comma(),
                lines == text_lines(text@),
                0 <= done <= lines.len(),
                lines.skip(done) == text_lines(rest@),
                Plan::after(lines, done) == Some(plan),
                plan.sound(),
                plan.size() + rest@.len() <= text@.len(),
                mirrors(plan, labels, types@, wires@, in_degrees@, -1),
            decreases rest@.len(),
        {
            let (line, tail) = next_line(rest);
            proof {
                assert(lines.skip(done)[0] == line@);
                assert(lines.skip(done + 1) =~= lines.skip(done).skip(1));
                assert(lines.skip(done).skip(1) =~= text_lines(tail@));
            }
            let (left, right) = match split_once(line, to.as_slice()) {
                Some(parts) => parts,
                None => {
                    proof {
                        assert forall|at: int| !first_at(line@, arrow(), at) by {}
                        assert(lines[done] == line@);
                        assert(declared(lines[done]) is None);
                        assert(Plan::after(lines, done + 1) is None);
                        lemma_fault_stays(lines, done + 1, lines.len() as int);
                    }
                    return Err(SystemError::InvalidModule);
                },
            };
            let ghost targets = split(right@, comma());
            proof {
                let found = choose|at: int| #[trigger]
                    first_at(line@, arrow(), at) && left@ == line@.take(at) && right@
                        == line@.skip(at + arrow().len());
                let chosen = choose|at: int| first_at(line@, arrow(), at);
                lemma_first_at_unique(line@, arrow(), found, chosen);
                assert(declared(line@) == Some((left@, targets)));
                plan.lemma_arrived_not_negative(plan.count());
                plan.lemma_with_label(name_of(left@));
            }
            let (name, kind) = if left.len() > 0 && left[0] == '%' as u8 {
                (&left[1..left.len()], ModuleType::FlipFlop)
            } else if left.len() > 0 && left[0] == '&' as u8 {
                (&left[1..left.len()], ModuleType::Conjunction)
            } else {
                (left, ModuleType::Broadcast)
            };
            proof {
                assert(name@ =~= name_of(left@));
            }
            let module = meet(
                &mut labels,
                &mut types,
                &mut wires,
                &mut in_degrees,
                name,
                Ghost(plan),
                Ghost(-1),
            );
            types[module] = kind;
            let ghost base = Plan {
                types: plan.with_label(name@).types.update(module as int, kind),
                wires: plan.with_label(name@).wires.update(module as int, Seq::empty()),
                ..plan.with_label(name@)
            };
            let ghost mut now = base;
            let ghost mut read: int = 0;
            let mut out: Vec<(usize, usize)> = Vec::new();
            let mut others = right;
            proof {
                let known = plan.with_label(name@);
                known.lemma_arrived_same(base, known.count());
                assert forall|from: int, wire: int|
                    0 <= from < base.count() && 0 <= wire < base.wires[from].len() implies (
                #[trigger] base.wires[from][wire]).0 < base.count() && base.wires[from][wire].1
                    < base.arrivals[base.wires[from][wire].0 as int] by {
                    assert(base.wires[from] == known.wires[from]);
                    assert(known.wires[from][wire].0 < known.count());
                }
                assert(targets.skip(0) =~= targets);
            }
            loop
                invariant_except_break
                    0 <= read < targets.len(),
                    targets.skip(read) == split(others@, comma()),
                    now.size() + 2 + others@.len() + tail@.len() <= text@.len(),
                invariant
                    length == text@.len(),
                    and@ == comma(),
                    targets == split(right@, comma()),
                    now == base.with_wires(module as int, targets, read),
                    now.sound(),
                    module < now.count(),
                    mirrors(now, labels, types@, wires@, in_degrees@, module as int),
                    out@ == now.wires[module as int],
                ensures
                    read == targets.len(),
                    now.size() + tail@.len() <= text@.len(),
                decreases others@.len(),
            {
                let (target, more) = match split_once(others, and.as_slice()) {
                    Some((head, behind)) => {
                        proof {
                            let found = choose|at: int| #[trigger]
                                first_at(others@, comma(), at) && head@ == others@.take(at)
                                    && behind@ == others@.skip(at + comma().len());
                            let chosen = choose|at: int| first_at(others@, comma(), at);
                            lemma_first_at_unique(others@, comma(), found, chosen);
                            assert(targets.skip(read)[0] == head@);
                            assert(targets.skip(read + 1) =~= targets.skip(read).skip(1));
                            assert(targets.skip(read).skip(1) =~= split(behind@, comma()));
                            lemma_split_not_empty(behind@, comma());
                        }
                        (head, Some(behind))
                    },
                    None => {
                        proof {
                            assert forall|at: int| !first_at(others@, comma(), at) by {}
                            assert(targets.skip(read) =~= seq![others@]);
                            assert(targets.skip(read)[0] == others@);
                        }
                        (others, None)
                    },
                };
                proof {
                    now.lemma_arrived_not_negative(now.count());
                    now.lemma_with_wire(module as int, target@);
                }
                wire_to(
                    &mut labels,
                    &mut types,
                    &mut wires,
                    &mut in_degrees,
                    &mut out,
                    target,
                    Ghost(now),
                    Ghost(module as int),
                );
                proof {
                    now = now.with_wire(module as int, target@);
                    read = read + 1;
                }
                match more {
                    Some(behind) => {
                        others = behind;
                    },
                    None => {
                        break ;
                    },
                }
            }
            wires[module] = out;
            proof {
                plan = plan.with_module(left@, targets);
                done = done + 1;
                assert(now == plan);
            }
            rest = tail;
        }
        proof {
            assert(text_lines(rest@) =~= Seq::<Seq<u8>>::empty());
            assert(lines.skip(done).len() == 0);
            assert(done == lines.len());
        }
        let name = first_module();
        let broadcast_module = match labels.find(name.as_slice()) {
            Some(module) => module,
            None => {
                return Err(SystemError::NoBroadcaster);
            },
        };
        proof {
            plan.lemma_arrived_not_negative(plan.count());
        }
        let state_offsets = lay_out(&types, in_degrees, Ghost(plan));
        Ok(System { types, wires, state_offsets, broadcast_module })
    }
}

/// The parts of a text are at least one.
proof fn lemma_split_not_empty(text: Seq<u8>, sep: Seq<u8>)
    ensures
        split(text, sep).len() >= 1,
{
}

/// Once a line declares nothing, the plan stays undone.
proof fn lemma_fault_stays(lines: Seq<Seq<u8>>, from: int, upto: int)
    requires
        0 < from <= upto,
        Plan::after(lines, from) is None,
    ensures
        Plan::after(lines, upto) is None,
    decreases upto - from,
{
    if from < upto {
        lemma_fault_stays(lines, from, upto - 1);
    }
}

} // verus!
