use vstd::prelude::*;

verus! {

/// One hundred hundredths: the identity multiplier.
pub const IDENTITY: u64 = 100;

/// The correction multipliers of an action, each held in hundredths
/// (`100` stands for a multiplier of 1.0).
#[derive(Clone, Copy, Debug, PartialEq, Eq, Structural)]
pub struct Hosei {
    pub base: u64,
    pub first: u64,
    pub multi: u64,
    pub bonus: u64,
    pub repeat: u64,
}

impl Hosei {
    /// The multipliers with `base` as given and the others at identity.
    pub open spec fn with_base(base: u64) -> Hosei {
        Hosei { base, first: IDENTITY, multi: IDENTITY, bonus: IDENTITY, repeat: IDENTITY }
    }

    /// All multipliers at identity.
    pub fn identity() -> (r: Hosei)
        ensures
            r == Hosei::with_base(IDENTITY),
    {
        Hosei { base: IDENTITY, first: IDENTITY, multi: IDENTITY, bonus: IDENTITY, repeat: IDENTITY }
    }
}

/// One action of a combo: its identifier, its damage and, once it is known
/// to start a combo, its correction multipliers.
#[derive(Debug)]
pub struct Waza {
    pub id: String,
    pub dm: u64,
    pub hs: Option<Hosei>,
}

impl Waza {
    /// A copy of `waza` carrying identity multipliers.
    pub fn new(waza: &Waza) -> (r: Waza)
        ensures
            r.id@ == waza.id@,
            r.dm == waza.dm,
            r.hs == Some(Hosei::identity_spec()),
    {
        Waza { id: waza.id.clone(), dm: waza.dm, hs: Some(Hosei::identity()) }
    }
}

impl Hosei {
    /// All multipliers at identity.
    pub open spec fn identity_spec() -> Hosei {
        Hosei::with_base(IDENTITY)
    }
}

/// Why no correction factor could be inferred.
#[derive(Clone, Copy, Debug, PartialEq, Eq, Structural)]
pub enum HoseiError {
    /// An action that follows inside a combo never starts a combo.
    ClosureViolation,
    /// A combo starts with an action of zero damage.
    DegenerateSequence,
    /// A combo's scaled damage ratio is too large to factor.
    RatioOutOfRange,
    /// No combo proposed any factor.
    NoInference,
}

/// Some combo of at least two actions starts with the identifier `id`.
pub open spec fn is_first_id(combos: Seq<Vec<Waza>>, id: Seq<char>) -> bool {
    exists|i: int|
        0 <= i < combos.len() && (#[trigger] combos[i])@.len() >= 2 && combos[i]@[0].id@ == id
}

/// Every action that follows inside a combo of at least two actions also
/// starts some combo of at least two actions.
pub open spec fn closure_holds(combos: Seq<Vec<Waza>>) -> bool {
    forall|i: int, j: int|
        0 <= i < combos.len() && (#[trigger] combos[i])@.len() >= 2 && 1 <= j < combos[i]@.len()
            ==> is_first_id(combos, #[trigger] combos[i]@[j].id@)
}

/// The first actions of the combos of at least two actions: identifier to
/// damage, a later combo overriding an earlier one.
pub open spec fn first_actions(combos: Seq<Vec<Waza>>) -> Map<Seq<char>, u64>
    decreases combos.len(),
{
    if combos.len() == 0 {
        Map::empty()
    } else {
        let m = first_actions(combos.drop_last());
        let c = combos.last()@;
        if c.len() >= 2 {
            m.insert(c[0].id@, c[0].dm)
        } else {
            m
        }
    }
}

/// `entries` holds each identifier of `m` exactly once, with its damage.
pub open spec fn lists(entries: Seq<Waza>, m: Map<Seq<char>, u64>) -> bool {
    &&& forall|a: int, b: int| 0 <= a < b < entries.len() ==> entries[a].id@ != entries[b].id@
    &&& forall|t: int|
        0 <= t < entries.len() ==> m.contains_key((#[trigger] entries[t]).id@) && m[entries[t].id@]
            == entries[t].dm
    &&& forall|id: Seq<char>|
        #[trigger] m.contains_key(id) ==> exists|t: int|
            0 <= t < entries.len() && (#[trigger] entries[t]).id@ == id
}

/// Every entry carries the multipliers `h`.
pub open spec fn all_carry(entries: Seq<Waza>, h: Hosei) -> bool {
    forall|t: int| 0 <= t < entries.len() ==> (#[trigger] entries[t]).hs == Some(h)
}

/// An identifier starts a combo of at least two actions exactly when it is
/// a key of the first actions.
pub proof fn lemma_first_actions_keys(combos: Seq<Vec<Waza>>, id: Seq<char>)
    ensures
        first_actions(combos).contains_key(id) <==> is_first_id(combos, id),
    decreases combos.len(),
{
    if combos.len() > 0 {
        let d = combos.drop_last();
        lemma_first_actions_keys(d, id);
        if is_first_id(d, id) {
            let i = choose|i: int| 0 <= i < d.len() && (#[trigger] d[i])@.len() >= 2 && d[i]@[0].id@ == id;
            assert(combos[i] == d[i]);
        }
        if is_first_id(combos, id) {
            let i = choose|i: int|
                0 <= i < combos.len() && (#[trigger] combos[i])@.len() >= 2 && combos[i]@[0].id@ == id;
            if i < combos.len() - 1 {
                assert(d[i] == combos[i]);
            }
        }
    }
}

/// The position of the first entry named `id`, if any.
pub fn find_entry(entries: &Vec<Waza>, id: &String) -> (r: Option<usize>)
    ensures
        r matches Some(t) ==> t < entries@.len() && entries@[t as int].id@ == id@ && forall|u: int|
            0 <= u < t ==> (#[trigger] entries@[u]).id@ != id@,
        r is None ==> forall|t: int| 0 <= t < entries@.len() ==> (#[trigger] entries@[t]).id@ != id@,
{
    let mut t: usize = 0;
    while t < entries.len()
        invariant
            t <= entries@.len(),
            forall|u: int| 0 <= u < t ==> (#[trigger] entries@[u]).id@ != id@,
        decreases entries@.len() - t,
    {
        if entries[t].id == *id {
            return Some(t);
        }
        t = t + 1;
    }
    None
}

/// The combos, unchanged, and one entry with identity multipliers for each
/// identifier that starts a combo of at least two actions (carrying the
/// damage of the last such combo); or `ClosureViolation` when an action that
/// follows inside such a combo starts none.
pub fn get_base_damages(combos: Vec<Vec<Waza>>) -> (r: Result<(Vec<Vec<Waza>>, Vec<Waza>), HoseiError>)
    ensures
        match r {
            Ok((c, m)) => closure_holds(combos@) && c@ == combos@ && lists(m@, first_actions(combos@))
                && all_carry(m@, Hosei::identity_spec()),
            Err(e) => e == HoseiError::ClosureViolation && !closure_holds(combos@),
        },
{
    let ghost cs = combos@;
    let mut commands: Vec<Waza> = Vec::new();
    let mut i: usize = 0;
    while i < combos.len()
        invariant
            cs == combos@,
            i <= cs.len(),
            lists(commands@, first_actions(cs.take(i as int))),
            all_carry(commands@, Hosei::identity_spec()),
        decreases cs.len() - i,
    {
        let ghost pre = cs.take(i as int);
        let ghost old_commands = commands@;
        proof {
            assert(cs.take(i + 1).drop_last() =~= pre);
            assert(cs.take(i + 1).last() == cs[i as int]);
        }
        let combo = &combos[i];
        if combo.len() >= 2 {
            let first_waza = &combo[0];
            let ghost m = first_actions(cs.take(i + 1));
            match find_entry(&commands, &first_waza.id) {
                Some(t) => {
                    commands.set(t, Waza::new(first_waza));
                    proof {
                        assert forall|id: Seq<char>| #[trigger] m.contains_key(id) implies exists|u: int|
                            0 <= u < commands@.len() && (#[trigger] commands@[u]).id@ == id by {
                            if id != first_waza.id@ {
                                let u = choose|u: int|
                                    0 <= u < old_commands.len() && (#[trigger] old_commands[u]).id@ == id;
                                assert(commands@[u] == old_commands[u]);
                            } else {
                                assert(commands@[t as int].id@ == id);
                            }
                        }
                    }
                },
                None => {
                    commands.push(Waza::new(first_waza));
                    proof {
                        assert forall|id: Seq<char>| #[trigger] m.contains_key(id) implies exists|u: int|
                            0 <= u < commands@.len() && (#[trigger] commands@[u]).id@ == id by {
                            if id != first_waza.id@ {
                                let u = choose|u: int|
                                    0 <= u < old_commands.len() && (#[trigger] old_commands[u]).id@ == id;
                                assert(commands@[u] == old_commands[u]);
                            } else {
                                assert(commands@[old_commands.len() as int].id@ == id);
                            }
                        }
                    }
                },
            }
        }
        i = i + 1;
    }
    proof {
        assert(cs.take(cs.len() as int) =~= cs);
    }
    let mut i: usize = 0;
    while i < combos.len()
        invariant
            cs == combos@,
            i <= cs.len(),
            lists(commands@, first_actions(cs)),
            forall|a: int, j: int|
                0 <= a < i && (#[trigger] cs[a])@.len() >= 2 && 1 <= j < cs[a]@.len() ==> is_first_id(
                    cs,
                    #[trigger] cs[a]@[j].id@,
                ),
        decreases cs.len() - i,
    {
        let combo = &combos[i];
        if combo.len() >= 2 {
            let mut j: usize = 1;
            while j < combo.len()
                invariant
                    cs == combos@,
                    i < cs.len(),
                    combo == cs[i as int],
                    1 <= j <= combo@.len(),
                    lists(commands@, first_actions(cs)),
                    forall|b: int| 1 <= b < j ==> is_first_id(cs, #[trigger] combo@[b].id@),
                decreases combo@.len() - j,
            {
                let found = find_entry(&commands, &combo[j].id);
                proof {
                    lemma_first_actions_keys(cs, combo@[j as int].id@);
                }
                if found.is_none() {
                    return Err(HoseiError::ClosureViolation);
                }
                j = j + 1;
            }
        }
        i = i + 1;
    }
    Ok((combos, commands))
}

} // verus!
