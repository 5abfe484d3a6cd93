use vstd::prelude::*;

verus! {

/// Holds a description of an action and the callback that performs it.
pub struct Func<F> {
    pub func_closure: F,
    pub func_description: String,
}

impl<F> Func<F> {
    /// Creates a handler from a callback and a short description.
    pub fn new(func: F, desc: String) -> (r: Func<F>)
        ensures
            r.func_closure == func,
            r.func_description == desc,
    {
        Func { func_closure: func, func_description: desc }
    }
}

/// Why an argument list was refused.
#[derive(Debug, PartialEq, Eq)]
pub enum ParseError {
    /// The arguments after the program name do not form complete flag/value pairs.
    MalformedArgumentList,
    /// A flag has no registered handler.
    UnknownFlag(String),
}

/// The registry as a map: each flag maps to its description and its callback.
pub type Registry<F> = Map<Seq<char>, (Seq<char>, F)>;

/// The arguments after the program name form complete flag/value pairs.
pub open spec fn well_paired(n: int) -> bool {
    n >= 1 && (n - 1) % 2 == 0
}

/// How many flag/value pairs follow the program name.
pub open spec fn pair_count(n: int) -> int {
    (n - 1) / 2
}

/// The flag of pair `k`.
pub open spec fn flag_at(args: Seq<String>, k: int) -> Seq<char> {
    args[2 * k + 1]@
}

/// The value of pair `k`.
pub open spec fn value_at(args: Seq<String>, k: int) -> Seq<char> {
    args[2 * k + 2]@
}

/// Pair `j` is the leftmost pair whose flag is not registered.
pub open spec fn is_first_unknown<F>(reg: Registry<F>, args: Seq<String>, j: int) -> bool {
    &&& 0 <= j < pair_count(args.len() as int)
    &&& !reg.contains_key(flag_at(args, j))
    &&& forall|k: int| 0 <= k < j ==> #[trigger] reg.contains_key(flag_at(args, k))
}

/// Some pair of a well-paired list has an unregistered flag.
pub open spec fn has_unknown<F>(reg: Registry<F>, args: Seq<String>) -> bool {
    exists|j: int| is_first_unknown(reg, args, j)
}

/// The leftmost pair with an unregistered flag.
pub open spec fn first_unknown<F>(reg: Registry<F>, args: Seq<String>) -> int
    recommends
        has_unknown(reg, args),
{
    choose|j: int| is_first_unknown(reg, args, j)
}

/// How many leading pairs have their callback invoked.
pub open spec fn run_length<F>(reg: Registry<F>, args: Seq<String>) -> int {
    if !well_paired(args.len() as int) {
        0
    } else if has_unknown(reg, args) {
        first_unknown(reg, args)
    } else {
        pair_count(args.len() as int)
    }
}

/// The callbacks that parsing a list against a registry runs, in order, each
/// with the value of its pair.
pub open spec fn invocations<F>(reg: Registry<F>, args: Seq<String>) -> Seq<(F, Seq<char>)> {
    Seq::new(
        run_length(reg, args) as nat,
        |k: int| (reg[flag_at(args, k)].1, value_at(args, k)),
    )
}

/// What parsing returns.
pub open spec fn parse_outcome<F>(reg: Registry<F>, args: Seq<String>) -> Result<(), ParseError> {
    if !well_paired(args.len() as int) {
        Err(ParseError::MalformedArgumentList)
    } else if has_unknown(reg, args) {
        Err(ParseError::UnknownFlag(args[2 * first_unknown(reg, args) + 1]))
    } else {
        Ok(())
    }
}

/// A leftmost unregistered pair is unique, so it is the one `first_unknown` picks.
pub proof fn lemma_first_unknown_unique<F>(reg: Registry<F>, args: Seq<String>, j: int)
    requires
        is_first_unknown(reg, args, j),
    ensures
        has_unknown(reg, args),
        first_unknown(reg, args) == j,
{
    let c = first_unknown(reg, args);
    assert(is_first_unknown(reg, args, c));
    if c < j {
        assert(reg.contains_key(flag_at(args, c)));
    } else if c > j {
        assert(reg.contains_key(flag_at(args, j)));
    }
}

/// When every flag of a well-paired list is registered, parsing succeeds and
/// invokes one callback per pair, left to right, each with its pair's value.
pub proof fn lemma_all_registered<F>(reg: Registry<F>, args: Seq<String>)
    requires
        well_paired(args.len() as int),
        forall|k: int|
            0 <= k < pair_count(args.len() as int) ==> #[trigger] reg.contains_key(
                flag_at(args, k),
            ),
    ensures
        parse_outcome(reg, args) == Ok::<(), ParseError>(()),
        invocations(reg, args).len() == pair_count(args.len() as int),
        forall|k: int|
            0 <= k < pair_count(args.len() as int) ==> #[trigger] invocations(reg, args)[k] == (
                reg[flag_at(args, k)].1,
                value_at(args, k),
            ),
{
    if has_unknown(reg, args) {
        let j = first_unknown(reg, args);
        assert(reg.contains_key(flag_at(args, j)));
    }
}

/// When the arguments after the program name do not form complete pairs,
/// parsing refuses the list and invokes no callback.
pub proof fn lemma_unpaired_refused<F>(reg: Registry<F>, args: Seq<String>)
    requires
        !well_paired(args.len() as int),
    ensures
        parse_outcome(reg, args) == Err::<(), ParseError>(ParseError::MalformedArgumentList),
        invocations(reg, args).len() == 0,
{
}

/// When a well-paired list holds an unregistered flag, parsing stops at the
/// leftmost one with an error naming it: the callbacks of the pairs before it
/// are invoked in order, and none at or after it.
pub proof fn lemma_unknown_stops<F>(reg: Registry<F>, args: Seq<String>, u: int)
    requires
        well_paired(args.len() as int),
        0 <= u < pair_count(args.len() as int),
        !reg.contains_key(flag_at(args, u)),
    ensures
        is_first_unknown(reg, args, first_unknown(reg, args)),
        first_unknown(reg, args) <= u,
        parse_outcome(reg, args) == Err::<(), ParseError>(
            ParseError::UnknownFlag(args[2 * first_unknown(reg, args) + 1]),
        ),
        invocations(reg, args).len() == first_unknown(reg, args),
        forall|k: int|
            0 <= k < first_unknown(reg, args) ==> #[trigger] invocations(reg, args)[k] == (
                reg[flag_at(args, k)].1,
                value_at(args, k),
            ),
{
    lemma_leftmost_unknown(reg, args, u);
    let j = choose|j: int| is_first_unknown(reg, args, j);
    lemma_first_unknown_unique(reg, args, j);
}

proof fn lemma_leftmost_unknown<F>(reg: Registry<F>, args: Seq<String>, u: int)
    requires
        0 <= u < pair_count(args.len() as int),
        !reg.contains_key(flag_at(args, u)),
    ensures
        exists|j: int| j <= u && is_first_unknown(reg, args, j),
    decreases u,
{
    if forall|k: int| 0 <= k < u ==> #[trigger] reg.contains_key(flag_at(args, k)) {
        assert(is_first_unknown(reg, args, u));
    } else {
        let v = choose|k: int| 0 <= k < u && !reg.contains_key(flag_at(args, k));
        lemma_leftmost_unknown(reg, args, v);
    }
}

/// Registering a flag a second time replaces the first registration whole:
/// the registry is as if only the second had been made.
pub proof fn lemma_register_last_wins<F>(
    reg: Registry<F>,
    flag: Seq<char>,
    desc1: Seq<char>,
    func1: F,
    desc2: Seq<char>,
    func2: F,
)
    ensures
        reg.insert(flag, (desc1, func1)).insert(flag, (desc2, func2)) == reg.insert(
            flag,
            (desc2, func2),
        ),
        reg.insert(flag, (desc1, func1)).insert(flag, (desc2, func2))[flag] == (desc2, func2),
{
    assert(reg.insert(flag, (desc1, func1)).insert(flag, (desc2, func2)) =~= reg.insert(
        flag,
        (desc2, func2),
    ));
}

/// Saves flags with their handlers, and parses argument lists against them.
pub struct Parser<F> {
    pub flags: Vec<String>,
    pub funcs: Vec<Func<F>>,
    pub description: String,
}

impl<F: Fn(String)> Parser<F> {
    /// Flags are unique, each has one handler, and every callback accepts any string.
    pub open spec fn wf(&self) -> bool {
        &&& self.flags.len() == self.funcs.len()
        &&& forall|i: int, j: int|
            0 <= i < self.flags.len() && 0 <= j < self.flags.len() && i != j
                ==> #[trigger] self.flags[i]@ != #[trigger] self.flags[j]@
        &&& forall|i: int, s: String|
            0 <= i < self.funcs.len() ==> #[trigger] self.funcs[i].func_closure.requires((s,))
    }

    /// The registered flags, each with its description and callback.
    pub open spec fn view(&self) -> Registry<F> {
        Map::new(
            |k: Seq<char>| exists|i: int| 0 <= i < self.flags.len() && self.flags[i]@ == k,
            |k: Seq<char>|
                {
                    let i = choose|i: int| 0 <= i < self.flags.len() && self.flags[i]@ == k;
                    (self.funcs[i].func_description@, self.funcs[i].func_closure)
                },
        )
    }

    proof fn lemma_view_at(&self, i: int)
        requires
            self.wf(),
            0 <= i < self.flags.len(),
        ensures
            self@.contains_key(self.flags[i]@),
            self@[self.flags[i]@] == (
                self.funcs[i].func_description@,
                self.funcs[i].func_closure,
            ),
    {
        let k = self.flags[i]@;
        assert(0 <= i < self.flags.len() && self.flags[i]@ == k);
        let j = choose|j: int| 0 <= j < self.flags.len() && self.flags[j]@ == k;
        assert(j == i);
    }

    /// Every registered callback accepts any string.
    pub proof fn lemma_callable(&self, k: Seq<char>, s: String)
        requires
            self.wf(),
            self@.contains_key(k),
        ensures
            self@[k].1.requires((s,)),
    {
        let i = choose|i: int| 0 <= i < self.flags.len() && self.flags[i]@ == k;
        self.lemma_view_at(i);
        assert(self.funcs[i].func_closure.requires((s,)));
    }

    /// Creates a parser with no flags and the given top-level description.
    pub fn new(desc: &str) -> (r: Parser<F>)
        ensures
            r.wf(),
            r@ == Registry::<F>::empty(),
            r.description@ == desc@,
    {
        let r = Parser { flags: Vec::new(), funcs: Vec::new(), description: desc.to_owned() };
        assert(r@ =~= Registry::<F>::empty());
        r
    }
    /// Looks a flag up by exact match; `None` where it is not registered.
    pub fn resolve_func(&self, flag: &String) -> (r: Option<&Func<F>>)
        requires
            self.wf(),
        ensures
            r.is_some() == self@.contains_key(flag@),
            r matches Some(h) ==> self@[flag@] == (h.func_description@, h.func_closure),
    {
        let mut i: usize = 0;
        while i < self.flags.len()
            invariant
                self.wf(),
                i <= self.flags.len(),
                forall|j: int| 0 <= j < i ==> self.flags[j]@ != flag@,
            decreases self.flags.len() - i,
        {
            if self.flags[i] == *flag {
                proof {
                    self.lemma_view_at(i as int);
                }
                return Some(&self.funcs[i]);
            }
            i += 1;
        }
        None
    }

    /// Storing `(desc, func)` under `key` at slot `i` of a valid parser, where
    /// `i` is either the slot that already holds `key` or a fresh last slot,
    /// keeps the parser valid and inserts the entry into its map.
    proof fn lemma_store(pre: Self, post: Self, i: int, key: Seq<char>, desc: Seq<char>, func: F)
        requires
            pre.wf(),
            0 <= i <= pre.flags.len(),
            i < pre.flags.len() ==> pre.flags[i]@ == key,
            forall|j: int| 0 <= j < pre.flags.len() && j != i ==> pre.flags[j]@ != key,
            post.flags.len() == post.funcs.len(),
            i < pre.flags.len() ==> post.flags.len() == pre.flags.len(),
            i == pre.flags.len() ==> post.flags.len() == pre.flags.len() + 1,
            post.flags[i]@ == key,
            post.funcs[i].func_description@ == desc,
            post.funcs[i].func_closure == func,
            forall|s: String| func.requires((s,)),
            forall|j: int|
                0 <= j < pre.flags.len() && j != i ==> #[trigger] post.flags[j] == pre.flags[j],
            forall|j: int|
                0 <= j < pre.flags.len() && j != i ==> #[trigger] post.funcs[j] == pre.funcs[j],
        ensures
            post.wf(),
            post@ == pre@.insert(key, (desc, func)),
    {
        assert forall|a: int, b: int|
            0 <= a < post.flags.len() && 0 <= b < post.flags.len() && a != b
                implies #[trigger] post.flags[a]@ != #[trigger] post.flags[b]@ by {
            if a != i && b != i {
                assert(pre.flags[a]@ != pre.flags[b]@);
            }
        }
        assert forall|j: int, s: String| 0 <= j < post.funcs.len() implies
            #[trigger] post.funcs[j].func_closure.requires((s,)) by {
            if j != i {
                assert(pre.funcs[j].func_closure.requires((s,)));
            } else {
                assert(func.requires((s,)));
            }
        }
        let want = pre@.insert(key, (desc, func));
        assert forall|k: Seq<char>| #[trigger] post@.contains_key(k) == want.contains_key(k) by {
            if post@.contains_key(k) {
                let j = choose|j: int| 0 <= j < post.flags.len() && post.flags[j]@ == k;
                if j != i {
                    pre.lemma_view_at(j);
                }
            }
            if pre@.contains_key(k) {
                let j = choose|j: int| 0 <= j < pre.flags.len() && pre.flags[j]@ == k;
                post.lemma_view_at(j);
            }
            if k == key {
                post.lemma_view_at(i);
            }
        }
        assert forall|k: Seq<char>| #[trigger] post@.contains_key(k) implies post@[k] == want[k] by {
            let j = choose|j: int| 0 <= j < post.flags.len() && post.flags[j]@ == k;
            post.lemma_view_at(j);
            if j != i {
                pre.lemma_view_at(j);
            }
        }
        assert(post@ =~= want);
    }

    /// Registers `flag` with a description and a callback; a handler already
    /// registered under the same flag is replaced.
    pub fn register(&mut self, flag: &str, desc: &str, func: F)
        requires
            old(self).wf(),
            forall|s: String| func.requires((s,)),
        ensures
            final(self).wf(),
            final(self)@ == old(self)@.insert(flag@, (desc@, func)),
            final(self).description == old(self).description,
    {
        let key: String = flag.to_owned();
        let handler = Func::new(func, desc.to_owned());
        let ghost pre = *self;
        let mut i: usize = 0;
        while i < self.flags.len()
            invariant
                *self == pre,
                pre == *old(self),
                self.wf(),
                key@ == flag@,
                handler.func_closure == func,
                handler.func_description@ == desc@,
                forall|s: String| func.requires((s,)),
                i <= self.flags.len(),
                forall|j: int| 0 <= j < i ==> self.flags[j]@ != key@,
            decreases self.flags.len() - i,
        {
            if self.flags[i] == key {
                self.funcs.set(i, handler);
                proof {
                    Self::lemma_store(pre, *self, i as int, key@, desc@, func);
                }
                return;
            }
            i += 1;
        }
        self.flags.push(key);
        self.funcs.push(handler);
        proof {
            Self::lemma_store(pre, *self, pre.flags.len() as int, flag@, desc@, func);
        }
    }

    /// Invokes a callback with its value.
    pub fn execute(&self, arg: String, f: &F)
        requires
            f.requires((arg,)),
        ensures
            f.ensures((arg,), ()),
    {
        f(arg);
    }

    /// Splits `args` after the program name into flag/value pairs and, left to
    /// right, invokes the callback registered for each flag with its value.
    /// Stops with an error before any callback where the pairs are incomplete,
    /// and at the first flag that is not registered.
    pub fn parse(&self, args: Vec<String>) -> (r: Result<(), ParseError>)
        requires
            self.wf(),
        ensures
            r == parse_outcome(self@, args@),
            forall|k: int|
                0 <= k < invocations(self@, args@).len() ==> #[trigger] invocations(
                    self@,
                    args@,
                )[k].0.ensures((args@[2 * k + 2],), ()),
    {
        let n = args.len();
        if n == 0 || (n - 1) % 2 != 0 {
            return Err(ParseError::MalformedArgumentList);
        }
        let pairs: usize = (n - 1) / 2;
        let ghost reg = self@;
        // Each callback invoked so far, with the value it was given.
        let ghost mut done: Seq<(F, Seq<char>)> = Seq::empty();
        let mut k: usize = 0;
        while k < pairs
            invariant
                self.wf(),
                reg == self@,
                n == args.len(),
                well_paired(n as int),
                pairs == pair_count(n as int),
                k <= pairs,
                forall|j: int| 0 <= j < k ==> #[trigger] reg.contains_key(flag_at(args@, j)),
                done == Seq::new(
                    k as nat,
                    |j: int| (reg[flag_at(args@, j)].1, value_at(args@, j)),
                ),
                forall|j: int|
                    0 <= j < k ==> #[trigger] reg[flag_at(args@, j)].1.ensures(
                        (args@[2 * j + 2],),
                        (),
                    ),
            decreases pairs - k,
        {
            let flag = &args[2 * k + 1];
            match self.resolve_func(flag) {
                None => {
                    proof {
                        assert(is_first_unknown(reg, args@, k as int));
                        lemma_first_unknown_unique(reg, args@, k as int);
                        assert(done =~= invocations(reg, args@));
                    }
                    return Err(ParseError::UnknownFlag(flag.clone()));
                },
                Some(h) => {
                    let value = args[2 * k + 2].clone();
                    proof {
                        self.lemma_callable(flag@, value);
                        done = done.push((h.func_closure, value@));
                    }
                    self.execute(value, &h.func_closure);
                },
            }
            k += 1;
            proof {
                assert(done =~= Seq::new(
                    k as nat,
                    |j: int| (reg[flag_at(args@, j)].1, value_at(args@, j)),
                ));
            }
        }
        proof {
            if has_unknown(reg, args@) {
                let j = first_unknown(reg, args@);
                assert(reg.contains_key(flag_at(args@, j)));
            }
            assert(done =~= invocations(reg, args@));
        }
        Ok(())
    }
}

} // verus!
