//! Typed write commands for the key-value store, and a mathematical model
//! of the store that says what each command means.
//!
//! The library never talks to the store. It hands out `Command` values and
//! the caller issues them, in order, as one atomic pipeline. `Store` is the
//! state those commands act on, as far as the canvas uses it; the laws of
//! the canvas are stated over it.

use vstd::prelude::*;

verus! {

/// A member of a sorted set with its score.
#[derive(Debug, PartialEq, Eq)]
pub struct ScoredMember {
    pub member: String,
    pub score: u64,
}

/// One write to the key-value store.
#[derive(Debug, PartialEq, Eq)]
#[allow(inconsistent_fields)]
pub enum Command {
    /// `ZADD key score member [score member ...]`
    ZAdd { key: String, entries: Vec<ScoredMember> },
    /// `ZREMRANGEBYSCORE key min max`, both bounds inclusive.
    ZRemRangeByScore { key: String, min: u64, max: u64 },
    /// `SET key value` with a binary value.
    SetBlob { key: String, value: Vec<u8> },
    /// `SET key value` with a textual value.
    SetText { key: String, value: String },
    /// `HSET key field value`
    HSet { key: String, field: String, value: String },
    /// `HINCRBY key field delta`
    HIncrBy { key: String, field: String, delta: i64 },
    /// `SADD key member`
    SAdd { key: String, member: String },
    /// `LPUSH key value`
    LPush { key: String, value: String },
    /// `LREM key 1 value`: removes the occurrence of `value` nearest the head.
    LRem { key: String, value: String },
}

/// A command as a mathematical value.
#[allow(inconsistent_fields)]
pub enum CommandView {
    ZAdd { key: Seq<char>, entries: Seq<(Seq<char>, u64)> },
    ZRemRangeByScore { key: Seq<char>, min: u64, max: u64 },
    SetBlob { key: Seq<char>, value: Seq<u8> },
    SetText { key: Seq<char>, value: Seq<char> },
    HSet { key: Seq<char>, field: Seq<char>, value: Seq<char> },
    HIncrBy { key: Seq<char>, field: Seq<char>, delta: i64 },
    SAdd { key: Seq<char>, member: Seq<char> },
    LPush { key: Seq<char>, value: Seq<char> },
    LRem { key: Seq<char>, value: Seq<char> },
}

impl View for ScoredMember {
    type V = (Seq<char>, u64);

    open spec fn view(&self) -> (Seq<char>, u64) {
        (self.member@, self.score)
    }
}

/// The entries of a `ZADD` as mathematical values.
pub open spec fn entries_view(entries: Seq<ScoredMember>) -> Seq<(Seq<char>, u64)> {
    Seq::new(entries.len(), |i: int| entries[i]@)
}

impl View for Command {
    type V = CommandView;

    open spec fn view(&self) -> CommandView {
        match *self {
            Command::ZAdd { key, entries } => CommandView::ZAdd {
                key: key@,
                entries: entries_view(entries@),
            },
            Command::ZRemRangeByScore { key, min, max } => CommandView::ZRemRangeByScore {
                key: key@,
                min,
                max,
            },
            Command::SetBlob { key, value } => CommandView::SetBlob { key: key@, value: value@ },
            Command::SetText { key, value } => CommandView::SetText { key: key@, value: value@ },
            Command::HSet { key, field, value } => CommandView::HSet {
                key: key@,
                field: field@,
                value: value@,
            },
            Command::HIncrBy { key, field, delta } => CommandView::HIncrBy {
                key: key@,
                field: field@,
                delta,
            },
            Command::SAdd { key, member } => CommandView::SAdd { key: key@, member: member@ },
            Command::LPush { key, value } => CommandView::LPush { key: key@, value: value@ },
            Command::LRem { key, value } => CommandView::LRem { key: key@, value: value@ },
        }
    }
}

/// A pipeline as a sequence of mathematical values.
pub open spec fn pipeline_view(commands: Seq<Command>) -> Seq<CommandView> {
    Seq::new(commands.len(), |i: int| commands[i]@)
}

/// The state of the key-value store, one map per kind of value. A key that
/// a map does not hold stands for the empty value of its kind.
pub struct Store {
    /// Binary strings.
    pub blobs: Map<Seq<char>, Seq<u8>>,
    /// Textual strings.
    pub texts: Map<Seq<char>, Seq<char>>,
    /// Hashes with textual values.
    pub hashes: Map<Seq<char>, Map<Seq<char>, Seq<char>>>,
    /// Hashes that are only ever incremented.
    pub counters: Map<Seq<char>, Map<Seq<char>, int>>,
    /// Sets.
    pub sets: Map<Seq<char>, Set<Seq<char>>>,
    /// Sorted sets: the score of each member.
    pub sorted: Map<Seq<char>, Map<Seq<char>, u64>>,
    /// Lists, head first.
    pub lists: Map<Seq<char>, Seq<Seq<char>>>,
}

/// `s` without its first occurrence of `v`.
pub open spec fn remove_first(s: Seq<Seq<char>>, v: Seq<char>) -> Seq<Seq<char>>
    decreases s.len(),
{
    if s.len() == 0 {
        s
    } else if s[0] == v {
        s.drop_first()
    } else {
        seq![s[0]] + remove_first(s.drop_first(), v)
    }
}

/// A sorted set after a `ZADD` of `entries`, in order.
pub open spec fn upserted(set: Map<Seq<char>, u64>, entries: Seq<(Seq<char>, u64)>) -> Map<
    Seq<char>,
    u64,
>
    decreases entries.len(),
{
    if entries.len() == 0 {
        set
    } else {
        upserted(set, entries.drop_last()).insert(entries.last().0, entries.last().1)
    }
}

impl Store {
    /// The store that holds nothing.
    pub open spec fn empty() -> Store {
        Store {
            blobs: Map::empty(),
            texts: Map::empty(),
            hashes: Map::empty(),
            counters: Map::empty(),
            sets: Map::empty(),
            sorted: Map::empty(),
            lists: Map::empty(),
        }
    }

    /// The binary string at `key`; empty when absent.
    pub open spec fn blob(self, key: Seq<char>) -> Seq<u8> {
        if self.blobs.contains_key(key) {
            self.blobs[key]
        } else {
            Seq::empty()
        }
    }

    /// The counter hash at `key`.
    pub open spec fn counter_hash(self, key: Seq<char>) -> Map<Seq<char>, int> {
        if self.counters.contains_key(key) {
            self.counters[key]
        } else {
            Map::empty()
        }
    }

    /// The value of `field` in the counter hash at `key`; zero when absent.
    pub open spec fn counter(self, key: Seq<char>, field: Seq<char>) -> int {
        if self.counter_hash(key).contains_key(field) {
            self.counter_hash(key)[field]
        } else {
            0
        }
    }

    /// The hash at `key`.
    pub open spec fn hash(self, key: Seq<char>) -> Map<Seq<char>, Seq<char>> {
        if self.hashes.contains_key(key) {
            self.hashes[key]
        } else {
            Map::empty()
        }
    }

    /// The set at `key`.
    pub open spec fn set(self, key: Seq<char>) -> Set<Seq<char>> {
        if self.sets.contains_key(key) {
            self.sets[key]
        } else {
            Set::empty()
        }
    }

    /// The sorted set at `key`.
    pub open spec fn sorted_set(self, key: Seq<char>) -> Map<Seq<char>, u64> {
        if self.sorted.contains_key(key) {
            self.sorted[key]
        } else {
            Map::empty()
        }
    }

    /// The score of `member` in the sorted set at `key` (`ZSCORE`).
    pub open spec fn score(self, key: Seq<char>, member: Seq<char>) -> Option<u64> {
        if self.sorted_set(key).contains_key(member) {
            Some(self.sorted_set(key)[member])
        } else {
            None
        }
    }

    /// The list at `key`, head first.
    pub open spec fn list(self, key: Seq<char>) -> Seq<Seq<char>> {
        if self.lists.contains_key(key) {
            self.lists[key]
        } else {
            Seq::empty()
        }
    }

    /// The store after one command.
    pub open spec fn apply(self, command: CommandView) -> Store {
        match command {
            CommandView::ZAdd { key, entries } => Store {
                sorted: self.sorted.insert(key, upserted(self.sorted_set(key), entries)),
                ..self
            },
            CommandView::ZRemRangeByScore { key, min, max } => Store {
                sorted: self.sorted.insert(
                    key,
                    self.sorted_set(key).remove_keys(
                        Set::new(
                            |m: Seq<char>|
                                self.sorted_set(key).contains_key(m) && min
                                    <= self.sorted_set(key)[m] <= max,
                        ),
                    ),
                ),
                ..self
            },
            CommandView::SetBlob { key, value } => Store {
                blobs: self.blobs.insert(key, value),
                ..self
            },
            CommandView::SetText { key, value } => Store {
                texts: self.texts.insert(key, value),
                ..self
            },
            CommandView::HSet { key, field, value } => Store {
                hashes: self.hashes.insert(key, self.hash(key).insert(field, value)),
                ..self
            },
            CommandView::HIncrBy { key, field, delta } => Store {
                counters: self.counters.insert(
                    key,
                    self.counter_hash(key).insert(field, self.counter(key, field) + delta),
                ),
                ..self
            },
            CommandView::SAdd { key, member } => Store {
                sets: self.sets.insert(key, self.set(key).insert(member)),
                ..self
            },
            CommandView::LPush { key, value } => Store {
                lists: self.lists.insert(key, seq![value] + self.list(key)),
                ..self
            },
            CommandView::LRem { key, value } => Store {
                lists: self.lists.insert(key, remove_first(self.list(key), value)),
                ..self
            },
        }
    }

    /// The store after a pipeline of commands, issued in order.
    pub open spec fn run(self, commands: Seq<CommandView>) -> Store
        decreases commands.len(),
    {
        if commands.len() == 0 {
            self
        } else {
            self.run(commands.drop_last()).apply(commands.last())
        }
    }

    /// The store after `RPOPLPUSH source target`: the tail of `source`
    /// becomes the head of `target`; nothing moves when `source` is empty.
    pub open spec fn move_tail(self, source: Seq<char>, target: Seq<char>) -> Store {
        if self.list(source).len() == 0 {
            self
        } else {
            let item = self.list(source).last();
            let taken = Store {
                lists: self.lists.insert(source, self.list(source).drop_last()),
                ..self
            };
            Store { lists: taken.lists.insert(target, seq![item] + taken.list(target)), ..taken }
        }
    }
}

/// The view of a pipeline with one more command is the view with the
/// command's view appended.
pub proof fn lemma_pipeline_view_push(commands: Seq<Command>, command: Command)
    ensures
        pipeline_view(commands.push(command)) == pipeline_view(commands).push(command@),
{
    assert(pipeline_view(commands.push(command)) =~= pipeline_view(commands).push(command@));
}

/// The view of entries with one more entry is the view with the entry's
/// view appended.
pub proof fn lemma_entries_view_push(entries: Seq<ScoredMember>, entry: ScoredMember)
    ensures
        entries_view(entries.push(entry)) == entries_view(entries).push(entry@),
{
    assert(entries_view(entries.push(entry)) =~= entries_view(entries).push(entry@));
}

/// What a command adds to the counter `field` of the hash at `key`.
pub open spec fn increment_of(command: CommandView, key: Seq<char>, field: Seq<char>) -> int {
    match command {
        CommandView::HIncrBy { key: k, field: f, delta } => if k == key && f == field {
            delta as int
        } else {
            0
        },
        _ => 0,
    }
}

/// What a pipeline adds to the counter `field` of the hash at `key`.
pub open spec fn total_increment(commands: Seq<CommandView>, key: Seq<char>, field: Seq<char>) -> int
    decreases commands.len(),
{
    if commands.len() == 0 {
        0
    } else {
        total_increment(commands.drop_last(), key, field) + increment_of(
            commands.last(),
            key,
            field,
        )
    }
}

/// Whether a command writes neither a string nor a sorted set nor a set
/// nor a list: it touches hashes only.
pub open spec fn is_hash_write(command: CommandView) -> bool {
    command is HSet || command is HIncrBy
}

/// Running two pipelines one after the other is running them joined.
pub proof fn lemma_run_concat(s: Store, a: Seq<CommandView>, b: Seq<CommandView>)
    ensures
        s.run(a + b) == s.run(a).run(b),
    decreases b.len(),
{
    if b.len() == 0 {
        assert(a + b =~= a);
    } else {
        lemma_run_concat(s, a, b.drop_last());
        assert((a + b).drop_last() =~= a + b.drop_last());
        assert((a + b).last() == b.last());
    }
}

/// Running a pipeline of one command is applying the command.
pub proof fn lemma_run_one(s: Store, c: CommandView)
    ensures
        s.run(seq![c]) == s.apply(c),
{
    assert(seq![c].drop_last() =~= Seq::<CommandView>::empty());
    assert(s.run(seq![c].drop_last()) == s);
}

/// What two pipelines add to a counter is the sum of what each adds.
pub proof fn lemma_total_increment_concat(
    a: Seq<CommandView>,
    b: Seq<CommandView>,
    key: Seq<char>,
    field: Seq<char>,
)
    ensures
        total_increment(a + b, key, field) == total_increment(a, key, field) + total_increment(
            b,
            key,
            field,
        ),
    decreases b.len(),
{
    if b.len() == 0 {
        assert(a + b =~= a);
    } else {
        lemma_total_increment_concat(a, b.drop_last(), key, field);
        assert((a + b).drop_last() =~= a + b.drop_last());
        assert((a + b).last() == b.last());
    }
}

/// After a pipeline a counter holds what it held plus what the pipeline
/// adds to it.
pub proof fn lemma_counter_after_run(
    s: Store,
    commands: Seq<CommandView>,
    key: Seq<char>,
    field: Seq<char>,
)
    ensures
        s.run(commands).counter(key, field) == s.counter(key, field) + total_increment(
            commands,
            key,
            field,
        ),
    decreases commands.len(),
{
    if commands.len() > 0 {
        lemma_counter_after_run(s, commands.drop_last(), key, field);
        let mid = s.run(commands.drop_last());
        let c = commands.last();
        match c {
            CommandView::HIncrBy { key: k, field: f, delta } => {
                if k == key {
                    if f == field {
                    } else {
                        assert(mid.apply(c).counter_hash(key).contains_key(field)
                            == mid.counter_hash(key).contains_key(field));
                    }
                } else {
                    assert(mid.apply(c).counter_hash(key) == mid.counter_hash(key));
                }
            },
            _ => {
                assert(mid.apply(c).counters == mid.counters);
            },
        }
    }
}

/// A pipeline that touches hashes only leaves strings, sets, sorted sets
/// and lists as they were.
pub proof fn lemma_hash_writes_frame(s: Store, commands: Seq<CommandView>)
    requires
        forall|i: int| 0 <= i < commands.len() ==> is_hash_write(#[trigger] commands[i]),
    ensures
        s.run(commands).blobs == s.blobs,
        s.run(commands).texts == s.texts,
        s.run(commands).sets == s.sets,
        s.run(commands).sorted == s.sorted,
        s.run(commands).lists == s.lists,
    decreases commands.len(),
{
    if commands.len() > 0 {
        assert forall|i: int| 0 <= i < commands.drop_last().len() implies is_hash_write(
            #[trigger] commands.drop_last()[i],
        ) by {
            assert(commands.drop_last()[i] == commands[i]);
        }
        lemma_hash_writes_frame(s, commands.drop_last());
        assert(is_hash_write(commands[commands.len() - 1]));
    }
}

/// After a `ZADD` a sorted set holds a member exactly if it held it before
/// or an entry names it; members that no entry names keep their score.
pub proof fn lemma_upserted_members(
    set: Map<Seq<char>, u64>,
    entries: Seq<(Seq<char>, u64)>,
    member: Seq<char>,
)
    ensures
        upserted(set, entries).contains_key(member) <==> set.contains_key(member) || exists|
            i: int,
        |
            0 <= i < entries.len() && (#[trigger] entries[i]).0 == member,
        (forall|i: int| 0 <= i < entries.len() ==> (#[trigger] entries[i]).0 != member)
            ==> upserted(set, entries).contains_key(member) == set.contains_key(member) && (
        set.contains_key(member) ==> upserted(set, entries)[member] == set[member]),
    decreases entries.len(),
{
    if entries.len() > 0 {
        let rest = entries.drop_last();
        lemma_upserted_members(set, rest, member);
        if exists|i: int| 0 <= i < rest.len() && (#[trigger] rest[i]).0 == member {
            let i = choose|i: int| 0 <= i < rest.len() && (#[trigger] rest[i]).0 == member;
            assert(entries[i] == rest[i]);
        }
        if exists|i: int| 0 <= i < entries.len() && (#[trigger] entries[i]).0 == member {
            let i = choose|i: int| 0 <= i < entries.len() && (#[trigger] entries[i]).0 == member;
            if i < rest.len() {
                assert(rest[i] == entries[i]);
            }
        }
        if forall|i: int| 0 <= i < entries.len() ==> (#[trigger] entries[i]).0 != member {
            assert forall|i: int| 0 <= i < rest.len() implies (#[trigger] rest[i]).0 != member by {
                assert(rest[i] == entries[i]);
            }
            assert(entries[entries.len() - 1].0 != member);
        }
    }
}

/// What a pipeline of one command adds to a counter.
pub proof fn lemma_total_increment_one(c: CommandView, key: Seq<char>, field: Seq<char>)
    ensures
        total_increment(seq![c], key, field) == increment_of(c, key, field),
{
    assert(seq![c].drop_last() =~= Seq::<CommandView>::empty());
    assert(total_increment(seq![c].drop_last(), key, field) == 0);
}

} // verus!
