//! The tool configuration: paths of the external converters.
use vstd::prelude::*;
use vstd::string::StringExecFns;

verus! {

/// Where one external tool lives.
#[derive(Debug, Clone)]
pub struct BinConfig {
    pub name: String,
    pub path: String,
    pub params: Vec<String>,
}

#[derive(Debug, Clone)]
pub struct Config {
    pub version: i32,
    pub bin: Vec<BinConfig>,
}

pub struct BinConfigView {
    pub name: Seq<char>,
    pub path: Seq<char>,
    pub params: Seq<Seq<char>>,
}

impl View for BinConfig {
    type V = BinConfigView;

    open spec fn view(&self) -> BinConfigView {
        BinConfigView {
            name: self.name@,
            path: self.path@,
            params: self.params@.map_values(|p: String| p@),
        }
    }
}

impl View for Config {
    type V = Seq<BinConfigView>;

    open spec fn view(&self) -> Seq<BinConfigView> {
        self.bin@.map_values(|b: BinConfig| b@)
    }
}

/// The position of the first entry named `name`.
pub open spec fn first_named(bins: Seq<BinConfigView>, name: Seq<char>) -> Option<int>
    decreases bins.len(),
{
    if bins.len() == 0 {
        None
    } else {
        match first_named(bins.drop_last(), name) {
            Some(i) => Some(i),
            None => if bins.last().name == name {
                Some(bins.len() - 1)
            } else {
                None
            },
        }
    }
}

/// The entries after setting the path of `name`: the first entry of that
/// name gets the path, or a new entry without parameters is added.
pub open spec fn with_bin_path(bins: Seq<BinConfigView>, name: Seq<char>, path: Seq<char>) -> Seq<
    BinConfigView,
> {
    match first_named(bins, name) {
        Some(i) => bins.update(i, BinConfigView { path, ..bins[i] }),
        None => bins.push(BinConfigView { name, path, params: Seq::empty() }),
    }
}

/// The entries after offering a found path for `name`: it is kept only where
/// `name` has no entry yet.
pub open spec fn with_found_path(bins: Seq<BinConfigView>, name: Seq<char>, found: Option<Seq<char>>) -> Seq<
    BinConfigView,
> {
    match found {
        Some(path) => if first_named(bins, name) is None {
            with_bin_path(bins, name, path)
        } else {
            bins
        },
        None => bins,
    }
}

proof fn lemma_first_named_prefix(bins: Seq<BinConfigView>, name: Seq<char>, k: int)
    requires
        0 <= k <= bins.len(),
        first_named(bins.take(k), name) is Some,
    ensures
        first_named(bins, name) == first_named(bins.take(k), name),
    decreases bins.len() - k,
{
    if k < bins.len() {
        assert(bins.take(k + 1).drop_last() =~= bins.take(k));
        lemma_first_named_prefix(bins, name, k + 1);
    } else {
        assert(bins.take(k) =~= bins);
    }
}

proof fn lemma_first_named_in_range(bins: Seq<BinConfigView>, name: Seq<char>)
    ensures
        first_named(bins, name) matches Some(i) ==> 0 <= i < bins.len() && bins[i].name == name,
    decreases bins.len(),
{
    if bins.len() > 0 {
        lemma_first_named_in_range(bins.drop_last(), name);
    }
}

/// The configuration used where none could be read.
pub fn default_config() -> (r: Config)
    ensures
        r.version == 1,
        r@.len() == 0,
{
    Config { version: 1, bin: Vec::new() }
}

/// The configuration that was read, or the default one.
pub fn load_config(loaded: Option<Config>) -> (r: Config)
    ensures
        match loaded {
            Some(c) => r.version == c.version && r@ == c@,
            None => r.version == 1 && r@.len() == 0,
        },
{
    match loaded {
        Some(c) => c,
        None => default_config(),
    }
}

/// Whether a configuration file of `version` can be read.
pub fn is_supported_version(version: i64) -> (r: bool)
    ensures
        r == (version == 1),
{
    version == 1
}

impl Config {
    /// The position of the first entry named `name`.
    fn position_of(&self, name: &str) -> (r: Option<usize>)
        ensures
            match r {
                Some(i) => first_named(self@, name@) == Some(i as int) && i < self@.len(),
                None => first_named(self@, name@) is None,
            },
    {
        let key = String::from_str(name);
        let ghost bins = self@;
        let mut i: usize = 0;
        assert(bins.take(0) =~= Seq::<BinConfigView>::empty());
        while i < self.bin.len()
            invariant
                bins == self@,
                key@ == name@,
                i <= bins.len(),
                first_named(bins.take(i as int), name@) is None,
            decreases bins.len() - i,
        {
            assert(bins.take(i + 1).drop_last() =~= bins.take(i as int));
            assert(bins[i as int] == self.bin@[i as int]@);
            if self.bin[i].name == key {
                proof {
                    lemma_first_named_prefix(bins, name@, i + 1);
                }
                return Some(i);
            }
            i = i + 1;
        }
        assert(bins.take(i as int) =~= bins);
        None
    }

    /// The first entry named `name`.
    pub fn get_bin_config(&self, name: &str) -> (r: Option<&BinConfig>)
        ensures
            match first_named(self@, name@) {
                Some(i) => r matches Some(b) && b@ == self@[i],
                None => r is None,
            },
    {
        match self.position_of(name) {
            Some(i) => Some(&self.bin[i]),
            None => None,
        }
    }

    /// Sets the path of the first entry named `name`, or adds an entry.
    pub fn set_bin_config(&mut self, name: &str, path: &str)
        ensures
            final(self).version == old(self).version,
            final(self)@ == with_bin_path(old(self)@, name@, path@),
    {
        proof {
            lemma_first_named_in_range(old(self)@, name@);
        }
        match self.position_of(name) {
            Some(i) => {
                let b = self.bin.remove(i);
                let nb = BinConfig { name: b.name, path: String::from_str(path), params: b.params };
                self.bin.insert(i, nb);
                assert(self.bin@ =~= old(self).bin@.update(i as int, nb));
                assert(old(self)@[i as int] == old(self).bin@[i as int]@);
                let ghost target = old(self)@.update(
                    i as int,
                    BinConfigView { path: path@, ..old(self)@[i as int] },
                );
                assert(with_bin_path(old(self)@, name@, path@) == target);
                assert(nb@ == target[i as int]);
                assert forall|j: int| 0 <= j < self@.len() implies self@[j] == target[j] by {
                    if j != i {
                        assert(self.bin@[j] == old(self).bin@[j]);
                    }
                }
                assert(self@ =~= target);
            },
            None => {
                let nb = BinConfig {
                    name: String::from_str(name),
                    path: String::from_str(path),
                    params: Vec::new(),
                };
                assert(nb@.params =~= Seq::<Seq<char>>::empty());
                self.bin.push(nb);
                assert(self@ =~= old(self)@.push(nb@));
            },
        }
    }

    /// Fills in the paths of the transcoder and of the console converter where
    /// they have no entry and a path was found for them.
    pub fn initialize(&mut self, ffmpeg: Option<&str>, wwise_console: Option<&str>)
        ensures
            final(self).version == old(self).version,
            final(self)@ == with_found_path(
                with_found_path(
                    old(self)@,
                    "ffmpeg"@,
                    match ffmpeg {
                        Some(p) => Some(p@),
                        None => None,
                    },
                ),
                "WwiseConsole"@,
                match wwise_console {
                    Some(p) => Some(p@),
                    None => None,
                },
            ),
    {
        if self.get_bin_config("ffmpeg").is_none() {
            if let Some(p) = ffmpeg {
                self.set_bin_config("ffmpeg", p);
            }
        }
        if self.get_bin_config("WwiseConsole").is_none() {
            if let Some(p) = wwise_console {
                self.set_bin_config("WwiseConsole", p);
            }
        }
    }
}

} // verus!
