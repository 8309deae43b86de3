//! Model tiers and the settings that a run is made with.
//!
//! The sampling parameters are of a type `F` that is handed through unread.

use vstd::prelude::*;

use crate::text;

verus! {

/// A model that can be run.
#[derive(Debug)]
pub struct ModelTier {
    /// What the model is called.
    pub name: String,
    /// Where the model file is downloaded from.
    pub url: String,
    /// The name of the model file.
    pub filename: String,
    /// How many layers are offloaded to the GPU.
    pub n_gpu_layers: i32,
    /// The prompt template that the model was trained on.
    pub template: String,
}

impl Clone for ModelTier {
    fn clone(&self) -> (r: Self)
        ensures
            r == *self,
    {
        ModelTier {
            name: self.name.clone(),
            url: self.url.clone(),
            filename: self.filename.clone(),
            n_gpu_layers: self.n_gpu_layers,
            template: self.template.clone(),
        }
    }
}

/// How text is generated.
#[derive(Debug)]
pub struct InferenceConfig<F> {
    /// The size of the context window, in tokens.
    pub n_ctx: u32,
    /// The sampling temperature.
    pub temp: F,
    /// The probability mass that is sampled from.
    pub top_p: F,
    /// Whether the model file is mapped into memory.
    pub use_mmap: bool,
    /// Whether the model is locked in memory.
    pub use_mlock: bool,
}

/// The configuration of the program.
#[derive(Debug)]
pub struct Config<F> {
    /// The tier that is run when none is asked for.
    pub default_tier: String,
    /// How much memory may be used.
    pub memory_limit_mb: u32,
    /// The tiers, each under its key.
    pub tiers: TierTable,
    /// How text is generated.
    pub inference: InferenceConfig<F>,
}

/// What is set for one run in place of what is configured.
#[derive(Debug)]
pub struct Overrides<F> {
    /// The tier to run.
    pub tier: Option<String>,
    /// The sampling temperature.
    pub temp: Option<F>,
    /// The probability mass that is sampled from.
    pub top_p: Option<F>,
    /// The size of the context window.
    pub ctx: Option<u32>,
    /// How many layers are offloaded to the GPU.
    pub gpu_layers: Option<i32>,
}

/// The model and the settings of one run.
#[derive(Debug)]
pub struct Selection<F> {
    /// The model to run.
    pub tier: ModelTier,
    /// How text is generated.
    pub inference: InferenceConfig<F>,
}

/// Why no run can be made.
#[derive(Debug)]
pub enum ConfigError {
    /// No tier has this key.
    TierNotFound(String),
}

impl ConfigError {
    /// The error in words.
    pub fn message(&self) -> (r: String)
        ensures
            match self {
                ConfigError::TierNotFound(key) => r@ == "Tier '"@ + key@
                    + "' not found in config.json"@,
            },
    {
        match self {
            ConfigError::TierNotFound(key) => {
                let mut text = String::new();
                text.append("Tier '");
                text.append(key.as_str());
                text.append("' not found in config.json");
                assert(text@ =~= "Tier '"@ + key@ + "' not found in config.json"@);
                text
            },
        }
    }
}

/// What is set, or else what is configured.
pub open spec fn overridden<T>(configured: T, given: Option<T>) -> T {
    match given {
        Some(value) => value,
        None => configured,
    }
}

/// A tier and the key that it is listed under.
pub type Entry = (Seq<char>, ModelTier);

/// No two entries have the same key.
pub open spec fn distinct_keys(entries: Seq<Entry>) -> bool {
    forall|i: int, j: int|
        0 <= i < j < entries.len() ==> (#[trigger] entries[i]).0 != (#[trigger] entries[j]).0
}

/// The tiers by their keys.
pub open spec fn by_key(entries: Seq<Entry>) -> Map<Seq<char>, ModelTier>
    decreases entries.len(),
{
    if entries.len() == 0 {
        Map::empty()
    } else {
        by_key(entries.drop_last()).insert(entries.last().0, entries.last().1)
    }
}

/// What [`by_key`] holds: for each key the tier that stands under it, and no other
/// keys.
pub proof fn lemma_by_key(entries: Seq<Entry>, key: Seq<char>)
    requires
        distinct_keys(entries),
    ensures
        by_key(entries).contains_key(key) ==> exists|i: int|
            0 <= i < entries.len() && (#[trigger] entries[i]).0 == key,
        forall|i: int|
            0 <= i < entries.len() && (#[trigger] entries[i]).0 == key ==> by_key(
                entries,
            ).contains_key(key) && by_key(entries)[key] == entries[i].1,
    decreases entries.len(),
{
    if entries.len() > 0 {
        let most = entries.drop_last();
        lemma_by_key(most, key);
        assert forall|i: int| 0 <= i < entries.len() && (#[trigger] entries[i]).0 == key implies by_key(
            entries,
        ).contains_key(key) && by_key(entries)[key] == entries[i].1 by {
            if i < most.len() {
                assert(most[i] == entries[i]);
            }
        }
        if by_key(entries).contains_key(key) {
            if entries.last().0 == key {
                assert(entries[entries.len() - 1].0 == key);
            } else {
                let i = choose|i: int| 0 <= i < most.len() && (#[trigger] most[i]).0 == key;
                assert(entries[i].0 == key);
            }
        }
    }
}

/// Putting another tier under a key that is there.
proof fn lemma_replace(entries: Seq<Entry>, i: int, tier: ModelTier)
    requires
        distinct_keys(entries),
        0 <= i < entries.len(),
    ensures
        distinct_keys(entries.update(i, (entries[i].0, tier))),
        by_key(entries.update(i, (entries[i].0, tier))) == by_key(entries).insert(
            entries[i].0,
            tier,
        ),
    decreases entries.len(),
{
    let most = entries.drop_last();
    let new = entries.update(i, (entries[i].0, tier));
    if i == entries.len() - 1 {
        assert(new.drop_last() =~= most);
    } else {
        lemma_replace(most, i, tier);
        assert(new.drop_last() =~= most.update(i, (most[i].0, tier)));
        assert(entries[i].0 != entries.last().0);
    }
    assert(by_key(new) =~= by_key(entries).insert(entries[i].0, tier));
}

/// The tiers of a configuration, each under a key of its own.
#[derive(Debug)]
pub struct TierTable {
    entries: Vec<(String, ModelTier)>,
}

impl View for TierTable {
    type V = Map<Seq<char>, ModelTier>;

    open spec fn view(&self) -> Map<Seq<char>, ModelTier> {
        by_key(self.entries())
    }
}

impl TierTable {
    /// The tiers and their keys, in the order in which the keys came.
    pub closed spec fn entries(&self) -> Seq<Entry> {
        self.entries@.map_values(|e: (String, ModelTier)| (e.0@, e.1))
    }

    /// No key stands twice.
    pub open spec fn wf(&self) -> bool {
        distinct_keys(self.entries())
    }

    /// A table without tiers.
    pub fn new() -> (r: Self)
        ensures
            r.wf(),
            r.entries() == Seq::<Entry>::empty(),
            r@ == Map::<Seq<char>, ModelTier>::empty(),
    {
        let r = TierTable { entries: Vec::new() };
        assert(r.entries() =~= Seq::<Entry>::empty());
        r
    }

    /// The place of the tier with this key.
    fn find(&self, key: &str) -> (r: Option<usize>)
        requires
            self.wf(),
        ensures
            match r {
                Some(i) => {
                    &&& i < self.entries@.len()
                    &&& self.entries@[i as int].0@ == key@
                    &&& self@.contains_key(key@)
                    &&& self@[key@] == self.entries@[i as int].1
                },
                None => {
                    &&& !self@.contains_key(key@)
                    &&& forall|j: int|
                        0 <= j < self.entries().len() ==> (#[trigger] self.entries()[j]).0 != key@
                },
            },
    {
        let mut i: usize = 0;
        proof {
            lemma_by_key(self.entries(), key@);
        }
        while i < self.entries.len()
            invariant
                i <= self.entries@.len(),
                self.entries().len() == self.entries@.len(),
                forall|j: int| 0 <= j < i ==> (#[trigger] self.entries()[j]).0 != key@,
                forall|j: int|
                    0 <= j < self.entries().len() && (#[trigger] self.entries()[j]).0 == key@
                        ==> self@.contains_key(key@) && self@[key@] == self.entries()[j].1,
            decreases self.entries@.len() - i,
        {
            assert(self.entries()[i as int] == (
                self.entries@[i as int].0@,
                self.entries@[i as int].1,
            ));
            if text::same_text(self.entries[i].0.as_str(), key) {
                return Some(i);
            }
            i += 1;
        }
        None
    }

    /// Puts a tier under a key. It takes the place of one that is there.
    pub fn insert(&mut self, key: String, tier: ModelTier)
        requires
            old(self).wf(),
        ensures
            final(self).wf(),
            final(self)@ == old(self)@.insert(key@, tier),
            !old(self)@.contains_key(key@) ==> final(self).entries() == old(self).entries().push(
                (key@, tier),
            ),
            old(self)@.contains_key(key@) ==> {
                &&& final(self).entries().len() == old(self).entries().len()
                &&& forall|i: int|
                    0 <= i < old(self).entries().len() ==> #[trigger] final(self).entries()[i] == (
                        old(self).entries()[i].0,
                        if old(self).entries()[i].0 == key@ {
                            tier
                        } else {
                            old(self).entries()[i].1
                        },
                    )
            },
    {
        let ghost before = self.entries();
        let ghost k = key@;
        match self.find(key.as_str()) {
            Some(i) => {
                self.entries.set(i, (key, tier));
                proof {
                    assert(before[i as int].0 == k);
                    lemma_replace(before, i as int, tier);
                    assert(self.entries() =~= before.update(i as int, (k, tier)));
                }
            },
            None => {
                self.entries.push((key, tier));
                proof {
                    assert(self.entries() =~= before.push((k, tier)));
                    assert(self.entries().drop_last() =~= before);
                }
            },
        }
    }

    /// The tier with this key.
    pub fn get(&self, key: &str) -> (r: Option<&ModelTier>)
        requires
            self.wf(),
        ensures
            match r {
                Some(tier) => self@.contains_key(key@) && *tier == self@[key@],
                None => !self@.contains_key(key@),
            },
            match r {
                Some(tier) => exists|i: int|
                    0 <= i < self.entries().len() && #[trigger] self.entries()[i] == (key@, *tier),
                None => forall|i: int|
                    0 <= i < self.entries().len() ==> (#[trigger] self.entries()[i]).0 != key@,
            },
    {
        proof {
            lemma_by_key(self.entries(), key@);
        }
        match self.find(key) {
            Some(i) => Some(&self.entries[i].1),
            None => None,
        }
    }
}

impl<F> Config<F> {
    /// The key of the tier that is run.
    pub open spec fn chosen(&self, overrides: &Overrides<F>) -> Seq<char> {
        match overrides.tier {
            Some(key) => key@,
            None => self.default_tier@,
        }
    }
}

/// What is set, or else what is configured.
fn override_with<T>(configured: T, given: Option<T>) -> (r: T)
    ensures
        r == overridden(configured, given),
{
    match given {
        Some(value) => value,
        None => configured,
    }
}

impl<F> Config<F> {
    /// Picks the tier to run, the one asked for or else the default one, and puts
    /// what is set for this run in place of what is configured.
    pub fn select(self, overrides: Overrides<F>) -> (r: Result<Selection<F>, ConfigError>)
        requires
            self.tiers.wf(),
        ensures
            r is Ok <==> self.tiers@.contains_key(self.chosen(&overrides)),
            match r {
                Ok(s) => {
                    let tier = self.tiers@[self.chosen(&overrides)];
                    &&& s.tier == (ModelTier {
                        n_gpu_layers: overridden(tier.n_gpu_layers, overrides.gpu_layers),
                        ..tier
                    })
                    &&& s.inference == (InferenceConfig {
                        n_ctx: overridden(self.inference.n_ctx, overrides.ctx),
                        temp: overridden(self.inference.temp, overrides.temp),
                        top_p: overridden(self.inference.top_p, overrides.top_p),
                        ..self.inference
                    })
                },
                Err(ConfigError::TierNotFound(key)) => key@ == self.chosen(&overrides),
            },
            overrides.tier matches Some(key) ==> match r {
                Ok(s) => {
                    &&& self.tiers@.contains_key(key@)
                    &&& s.tier.name == self.tiers@[key@].name
                    &&& s.tier.url == self.tiers@[key@].url
                    &&& s.tier.filename == self.tiers@[key@].filename
                    &&& s.tier.template == self.tiers@[key@].template
                    &&& s.tier.n_gpu_layers == match overrides.gpu_layers {
                        Some(n) => n,
                        None => self.tiers@[key@].n_gpu_layers,
                    }
                },
                Err(ConfigError::TierNotFound(missing)) => !self.tiers@.contains_key(key@)
                    && missing@ == key@,
            },
            overrides.tier is None ==> match r {
                Ok(s) => {
                    let key = self.default_tier@;
                    &&& self.tiers@.contains_key(key)
                    &&& s.tier.name == self.tiers@[key].name
                    &&& s.tier.url == self.tiers@[key].url
                    &&& s.tier.filename == self.tiers@[key].filename
                    &&& s.tier.template == self.tiers@[key].template
                    &&& s.tier.n_gpu_layers == match overrides.gpu_layers {
                        Some(n) => n,
                        None => self.tiers@[key].n_gpu_layers,
                    }
                },
                Err(ConfigError::TierNotFound(missing)) => !self.tiers@.contains_key(
                    self.default_tier@,
                ) && missing@ == self.default_tier@,
            },
            r matches Ok(s) ==> {
                &&& s.inference.n_ctx == match overrides.ctx {
                    Some(n) => n,
                    None => self.inference.n_ctx,
                }
                &&& s.inference.temp == match overrides.temp {
                    Some(x) => x,
                    None => self.inference.temp,
                }
                &&& s.inference.top_p == match overrides.top_p {
                    Some(x) => x,
                    None => self.inference.top_p,
                }
                &&& s.inference.use_mmap == self.inference.use_mmap
                &&& s.inference.use_mlock == self.inference.use_mlock
            },
    {
        let key: String = match overrides.tier {
            Some(key) => key,
            None => self.default_tier,
        };
        let found = match self.tiers.get(key.as_str()) {
            Some(tier) => Some(tier.clone()),
            None => None,
        };
        match found {
            None => Err(ConfigError::TierNotFound(key)),
            Some(mut tier) => {
                tier.n_gpu_layers = override_with(tier.n_gpu_layers, overrides.gpu_layers);
                let inference = InferenceConfig {
                    n_ctx: override_with(self.inference.n_ctx, overrides.ctx),
                    temp: override_with(self.inference.temp, overrides.temp),
                    top_p: override_with(self.inference.top_p, overrides.top_p),
                    use_mmap: self.inference.use_mmap,
                    use_mlock: self.inference.use_mlock,
                };
                Ok(Selection { tier, inference })
            },
        }
    }
}

/// The layer count as the unsigned number that the backend takes: a negative one
/// counts down from the largest.
pub fn gpu_layer_count(n_gpu_layers: i32) -> (r: u32)
    ensures
        r == if n_gpu_layers < 0 {
            n_gpu_layers + 0x1_0000_0000
        } else {
            n_gpu_layers as int
        },
{
    assert(n_gpu_layers < 0 ==> (n_gpu_layers as u32) == n_gpu_layers + 0x1_0000_0000)
        by (bit_vector);
    n_gpu_layers as u32
}

/// Where a tier stands in the listing: from the smallest model to the largest,
/// and behind them the tiers with other keys.
pub open spec fn rank(key: Seq<char>) -> int {
    if key == "pico"@ {
        0
    } else if key == "nano"@ {
        1
    } else if key == "micro"@ {
        2
    } else if key == "tiny"@ {
        3
    } else if key == "mini"@ {
        4
    } else if key == "small"@ {
        5
    } else if key == "medium"@ {
        6
    } else if key == "large"@ {
        7
    } else if key == "xl"@ {
        8
    } else if key == "xxl"@ {
        9
    } else {
        10
    }
}

/// Where a tier stands in the listing.
fn tier_rank(key: &str) -> (r: usize)
    ensures
        r == rank(key@),
{
    if text::same_text(key, "pico") {
        0
    } else if text::same_text(key, "nano") {
        1
    } else if text::same_text(key, "micro") {
        2
    } else if text::same_text(key, "tiny") {
        3
    } else if text::same_text(key, "mini") {
        4
    } else if text::same_text(key, "small") {
        5
    } else if text::same_text(key, "medium") {
        6
    } else if text::same_text(key, "large") {
        7
    } else if text::same_text(key, "xl") {
        8
    } else if text::same_text(key, "xxl") {
        9
    } else {
        10
    }
}

/// The tier at `i` is listed before the one at `j`: by rank, and in the order of
/// the configuration among equals.
pub open spec fn listed_before(tiers: Seq<Entry>, i: int, j: int) -> bool {
    let (a, b) = (rank(tiers[i].0), rank(tiers[j].0));
    a < b || (a == b && i < j)
}

/// `order` holds the place of every tier, once, in the order of the listing.
pub open spec fn is_listing(tiers: Seq<Entry>, order: Seq<usize>) -> bool {
    &&& order.len() == tiers.len()
    &&& forall|k: int| 0 <= k < order.len() ==> (#[trigger] order[k]) < tiers.len()
    &&& forall|i: usize| 0 <= i < tiers.len() ==> #[trigger] order.contains(i)
    &&& forall|k: int, l: int|
        0 <= k < l < order.len() ==> listed_before(
            tiers,
            (#[trigger] order[k]) as int,
            (#[trigger] order[l]) as int,
        )
}

/// `s`, filled up with spaces to `width` characters.
pub open spec fn padded(s: Seq<char>, width: nat) -> Seq<char> {
    if s.len() < width {
        s + Seq::new((width - s.len()) as nat, |i: int| ' ')
    } else {
        s
    }
}

/// The line that lists a tier.
pub open spec fn tier_line(key: Seq<char>, tier: ModelTier) -> Seq<char> {
    "  - "@ + padded(key, 15) + " : "@ + tier.name@ + " (template: "@ + tier.template@ + ")"@
}

/// Appends `s`, filled up with spaces to `width` characters.
fn push_padded(line: &mut String, s: &str, width: usize)
    ensures
        final(line)@ == old(line)@ + padded(s@, width as nat),
{
    line.append(s);
    let n = s.unicode_len();
    let mut i: usize = n;
    proof {
        reveal_strlit(" ");
        assert(line@ =~= old(line)@ + s@ + Seq::new(0, |i: int| ' '));
    }
    while i < width
        invariant
            n == s@.len(),
            n <= i,
            n < width ==> i <= width,
            n >= width ==> i == n,
            line@ == old(line)@ + s@ + Seq::new((i - n) as nat, |i: int| ' '),
        decreases width - i,
    {
        line.append(" ");
        proof {
            reveal_strlit(" ");
            assert(Seq::new((i - n) as nat, |i: int| ' ') + " "@ =~= Seq::new(
                (i + 1 - n) as nat,
                |i: int| ' ',
            ));
            assert(line@ =~= old(line)@ + s@ + Seq::new((i + 1 - n) as nat, |i: int| ' '));
        }
        i += 1;
    }
    assert(line@ =~= old(line)@ + padded(s@, width as nat));
}

/// Writes the line that lists a tier.
fn format_tier(key: &str, tier: &ModelTier) -> (r: String)
    ensures
        r@ == tier_line(key@, *tier),
{
    let mut line = String::new();
    line.append("  - ");
    push_padded(&mut line, key, 15);
    line.append(" : ");
    line.append(tier.name.as_str());
    line.append(" (template: ");
    line.append(tier.template.as_str());
    line.append(")");
    assert(line@ =~= tier_line(key@, *tier));
    line
}

impl TierTable {
    /// The places of the tiers in the order of the listing.
    pub fn listing_order(&self) -> (order: Vec<usize>)
        ensures
            is_listing(self.entries(), order@),
            order@.len() == self.entries().len(),
            forall|k: int| 0 <= k < order@.len() ==> (#[trigger] order@[k]) < self.entries().len(),
            forall|k: int, l: int|
                0 <= k < l < order@.len() ==> #[trigger] order@[k] != #[trigger] order@[l],
    {
        let ghost tiers = self.entries();
        let mut order: Vec<usize> = Vec::new();
        let mut i: usize = 0;
        while i < self.entries.len()
            invariant
                tiers == self.entries(),
                tiers.len() == self.entries@.len(),
                forall|j: int|
                    0 <= j < tiers.len() ==> (#[trigger] tiers[j]) == (
                        self.entries@[j].0@,
                        self.entries@[j].1,
                    ),
                i <= tiers.len(),
                order@.len() == i,
                forall|k: int| 0 <= k < order@.len() ==> (#[trigger] order@[k]) < i,
                forall|j: usize| 0 <= j < i ==> #[trigger] order@.contains(j),
                forall|k: int, l: int|
                    0 <= k < l < order@.len() ==> listed_before(
                        tiers,
                        (#[trigger] order@[k]) as int,
                        (#[trigger] order@[l]) as int,
                    ),
            decreases tiers.len() - i,
        {
            let r = tier_rank(self.entries[i].0.as_str());
            let mut p: usize = order.len();
            while p > 0 && tier_rank(self.entries[order[p - 1]].0.as_str()) > r
                invariant
                    tiers == self.entries(),
                tiers.len() == self.entries@.len(),
                forall|j: int|
                    0 <= j < tiers.len() ==> (#[trigger] tiers[j]) == (
                        self.entries@[j].0@,
                        self.entries@[j].1,
                    ),
                    i < tiers.len(),
                    p <= order@.len(),
                    r == rank(tiers[i as int].0),
                    forall|k: int| 0 <= k < order@.len() ==> (#[trigger] order@[k]) < i,
                    forall|k: int|
                        p <= k < order@.len() ==> rank(tiers[(#[trigger] order@[k]) as int].0) > r,
                decreases p,
            {
                p -= 1;
            }
            let ghost before = order@;
            order.insert(p, i);
            proof {
                assert(order@ =~= before.insert(p as int, i));
                assert forall|j: usize| 0 <= j < i + 1 implies #[trigger] order@.contains(j) by {
                    if j == i {
                        assert(order@[p as int] == i);
                    } else {
                        assert(before.contains(j));
                        let k = before.index_of(j);
                        if k < p {
                            assert(order@[k] == j);
                        } else {
                            assert(order@[k + 1] == j);
                        }
                    }
                }
                assert forall|k: int, l: int| 0 <= k < l < order@.len() implies listed_before(
                    tiers,
                    (#[trigger] order@[k]) as int,
                    (#[trigger] order@[l]) as int,
                ) by {
                    let k0 = if k < p {
                        k
                    } else {
                        k - 1
                    };
                    let l0 = if l < p {
                        l
                    } else {
                        l - 1
                    };
                    if k != p && l != p {
                        assert(order@[k] == before[k0]);
                        assert(order@[l] == before[l0]);
                    } else if l == p {
                        assert(order@[k] == before[k]);
                        assert(p > 0);
                        let last = before[p - 1];
                        assert(rank(tiers[last as int].0) <= r);
                        if k < p - 1 {
                            assert(listed_before(tiers, before[k] as int, last as int));
                        }
                    } else {
                        assert(order@[l] == before[l - 1]);
                    }
                }
            }
            i += 1;
        }
        order
    }

    /// The lines that list the tiers, below a heading.
    pub fn list_tiers(&self) -> (lines: Vec<String>)
        ensures
            lines@.len() == self.entries().len() + 1,
            lines@[0]@ == "Available model tiers:"@,
            exists|order: Seq<usize>|
                #![trigger is_listing(self.entries(), order)]
                is_listing(self.entries(), order) && forall|k: int|
                    0 <= k < order.len() ==> (#[trigger] lines@[k + 1])@ == tier_line(
                        self.entries()[order[k] as int].0,
                        self.entries()[order[k] as int].1,
                    ),
    {
        let order = self.listing_order();
        let mut lines: Vec<String> = Vec::new();
        lines.push("Available model tiers:".to_owned());
        let mut k: usize = 0;
        while k < order.len()
            invariant
                k <= order@.len(),
                is_listing(self.entries(), order@),
                self.entries().len() == self.entries@.len(),
                lines@.len() == k + 1,
                lines@[0]@ == "Available model tiers:"@,
                forall|l: int|
                    0 <= l < k ==> (#[trigger] lines@[l + 1])@ == tier_line(
                        self.entries()[order@[l] as int].0,
                        self.entries()[order@[l] as int].1,
                    ),
            decreases order@.len() - k,
        {
            let entry = &self.entries[order[k]];
            lines.push(format_tier(entry.0.as_str(), &entry.1));
            k += 1;
        }
        assert(is_listing(self.entries(), order@));
        lines
    }
}

/// A listing runs from the smallest model to the largest, each once, and ends
/// with the tiers under other keys.
pub proof fn listing_is_sorted(
    tiers: Seq<Entry>,
    order: Seq<usize>,
    k: int,
    l: int,
)
    requires
        distinct_keys(tiers),
        is_listing(tiers, order),
        0 <= k < l < order.len(),
    ensures
        ({
            let (a, b) = (rank(tiers[order[k] as int].0), rank(tiers[order[l] as int].0));
            a < b || a == b == 10
        }),
{
    let (i, j) = (order[k] as int, order[l] as int);
    assert(listed_before(tiers, i, j));
    if rank(tiers[i].0) == rank(tiers[j].0) && i < j {
        assert(tiers[i].0 != tiers[j].0);
    }
}

/// A configuration has one listing.
pub proof fn listing_is_unique(tiers: Seq<Entry>, a: Seq<usize>, b: Seq<usize>)
    requires
        is_listing(tiers, a),
        is_listing(tiers, b),
    ensures
        a == b,
{
    lemma_same_start(tiers, a, b, a.len() as int);
    assert(a =~= b);
}

proof fn lemma_same_start(tiers: Seq<Entry>, a: Seq<usize>, b: Seq<usize>, n: int)
    requires
        is_listing(tiers, a),
        is_listing(tiers, b),
        0 <= n <= a.len(),
    ensures
        forall|k: int| 0 <= k < n ==> a[k] == b[k],
    decreases n,
{
    if n > 0 {
        let k = n - 1;
        lemma_same_start(tiers, a, b, k);
        if a[k] != b[k] {
            assert(b.contains(a[k]));
            assert(a.contains(b[k]));
            let m = b.index_of(a[k]);
            let l = a.index_of(b[k]);
            if m < k {
                assert(a[m] == b[m]);
                assert(listed_before(tiers, a[m] as int, a[k] as int));
            }
            if l < k {
                assert(a[l] == b[l]);
                assert(listed_before(tiers, b[l] as int, b[k] as int));
            }
            assert(listed_before(tiers, b[k] as int, b[m] as int));
            assert(listed_before(tiers, a[k] as int, a[l] as int));
        }
    }
}

/// A tier that is asked for is the one that is run, whatever else is set. The
/// default tier is run only where none is asked for, and then whatever else is set.
pub proof fn asked_for_tier_is_chosen<F>(config: Config<F>, overrides: Overrides<F>)
    ensures
        overrides.tier matches Some(key) ==> config.chosen(&overrides) == key@,
        overrides.tier is None ==> config.chosen(&overrides) == config.default_tier@,
{
}

/// What is set for a run prevails over what is configured, which stands where
/// nothing is set.
pub proof fn given_value_prevails<T>(configured: T, value: T)
    ensures
        overridden(configured, Some(value)) == value,
        overridden(configured, None) == configured,
{
}

/// The keys of the models that come in sizes, from the smallest to the largest.
pub open spec fn sizes() -> Seq<Seq<char>> {
    seq![
        "pico"@,
        "nano"@,
        "micro"@,
        "tiny"@,
        "mini"@,
        "small"@,
        "medium"@,
        "large"@,
        "xl"@,
        "xxl"@,
    ]
}

proof fn lemma_sizes(key: Seq<char>)
    ensures
        forall|a: int| 0 <= a < sizes().len() ==> rank(#[trigger] sizes()[a]) == a,
        rank(key) == 10 <==> !sizes().contains(key),
        0 <= rank(key) <= 10,
        rank(key) < 10 ==> sizes()[rank(key)] == key,
{
    reveal_strlit("pico");
    reveal_strlit("nano");
    reveal_strlit("micro");
    reveal_strlit("tiny");
    reveal_strlit("mini");
    reveal_strlit("small");
    reveal_strlit("medium");
    reveal_strlit("large");
    reveal_strlit("xl");
    reveal_strlit("xxl");
    assert("pico"@[0] == 'p' && "nano"@[0] == 'n' && "tiny"@[0] == 't' && "mini"@[0] == 'm');
    assert("micro"@[0] == 'm' && "small"@[0] == 's' && "large"@[0] == 'l');
    assert(sizes().len() == 10);
    assert("pico"@.len() == 4 && "nano"@.len() == 4 && "tiny"@.len() == 4 && "mini"@.len() == 4);
    assert("micro"@.len() == 5 && "small"@.len() == 5 && "large"@.len() == 5);
    assert("medium"@.len() == 6 && "xl"@.len() == 2 && "xxl"@.len() == 3);
    assert(sizes()[0] == "pico"@ && rank("pico"@) == 0);
    assert(sizes()[1] == "nano"@ && rank("nano"@) == 1);
    assert(sizes()[2] == "micro"@ && rank("micro"@) == 2);
    assert(sizes()[3] == "tiny"@ && rank("tiny"@) == 3);
    assert(sizes()[4] == "mini"@ && rank("mini"@) == 4);
    assert(sizes()[5] == "small"@ && rank("small"@) == 5);
    assert(sizes()[6] == "medium"@ && rank("medium"@) == 6);
    assert(sizes()[7] == "large"@ && rank("large"@) == 7);
    assert(sizes()[8] == "xl"@ && rank("xl"@) == 8);
    assert(sizes()[9] == "xxl"@ && rank("xxl"@) == 9);
    assert forall|a: int| 0 <= a < sizes().len() implies rank(#[trigger] sizes()[a]) == a by {
        assert(a == 0 || a == 1 || a == 2 || a == 3 || a == 4 || a == 5 || a == 6 || a == 7 || a
            == 8 || a == 9);
    }
    if rank(key) < 10 {
        assert(sizes()[rank(key)] == key);
    }
    if sizes().contains(key) {
        let a = choose|a: int| 0 <= a < sizes().len() && sizes()[a] == key;
        assert(rank(sizes()[a]) == a);
    }
}

/// In a listing a smaller model never stands behind a larger one, and one that comes
/// in no size never before one that does. Those that come in no size stand in the
/// order of the configuration.
pub proof fn listing_runs_by_size(tiers: Seq<Entry>, order: Seq<usize>, k: int, l: int)
    requires
        is_listing(tiers, order),
        0 <= k < l < order.len(),
    ensures
        forall|a: int, b: int|
            0 <= a < b < sizes().len() && tiers[order[k] as int].0 == #[trigger] sizes()[b]
                ==> tiers[order[l] as int].0 != #[trigger] sizes()[a],
        !sizes().contains(tiers[order[k] as int].0) ==> {
            &&& !sizes().contains(tiers[order[l] as int].0)
            &&& order[k] < order[l]
        },
{
    let (i, j) = (order[k] as int, order[l] as int);
    assert(listed_before(tiers, i, j));
    lemma_sizes(tiers[i].0);
    lemma_sizes(tiers[j].0);
}

/// A listing has each tier of the configuration once, and nothing else.
pub proof fn listing_has_every_tier(tiers: Seq<Entry>, order: Seq<usize>, i: usize)
    requires
        is_listing(tiers, order),
        i < tiers.len(),
    ensures
        order.len() == tiers.len(),
        exists|k: int| 0 <= k < order.len() && order[k] == i,
        forall|k: int| 0 <= k < order.len() ==> (#[trigger] order[k]) < tiers.len(),
        order.no_duplicates(),
{
    assert(order.contains(i));
    assert forall|k: int, l: int|
        0 <= k < order.len() && 0 <= l < order.len() && k != l implies order[k] != order[l] by {
        if k < l {
            assert(listed_before(tiers, order[k] as int, order[l] as int));
        } else {
            assert(listed_before(tiers, order[l] as int, order[k] as int));
        }
    }
}

/// The line of a tier has its key, filled up with spaces to 15 characters and never
/// cut short, its name and its template, each as it is.
pub proof fn tier_line_in_full(key: Seq<char>, tier: ModelTier, gap: Seq<char>)
    requires
        gap.len() == if key.len() < 15 {
            15 - key.len()
        } else {
            0
        },
        forall|i: int| 0 <= i < gap.len() ==> gap[i] == ' ',
    ensures
        tier_line(key, tier) == "  - "@ + key + gap + " : "@ + tier.name@ + " (template: "@
            + tier.template@ + ")"@,
{
    assert(padded(key, 15) =~= key + gap);
    assert("  - "@ + (key + gap) =~= "  - "@ + key + gap);
}

} // verus!
