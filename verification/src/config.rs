//! The configuration of an analysis.

use vstd::prelude::*;
use crate::error::AnalyzerError;
use crate::fs::FileMetadata;
use crate::text::{appended, decimal, push_decimal, text_views};

verus! {

/// `globset::Glob`, a parsed pattern. Proofs see nothing inside.
#[verifier::external_type_specification]
#[verifier::external_body]
pub struct ExGlob(globset::Glob);

/// `globset::GlobSet`, a set of globs ready to match. Proofs see nothing inside.
#[verifier::external_type_specification]
#[verifier::external_body]
pub struct ExGlobSet(globset::GlobSet);

/// `globset::GlobSetBuilder`, the globs of a set in the making. Proofs see nothing
/// inside.
#[verifier::external_type_specification]
#[verifier::external_body]
pub struct ExGlobSetBuilder(globset::GlobSetBuilder);

/// `globset::Error`, a pattern that did not parse. Proofs see nothing inside.
#[verifier::external_type_specification]
#[verifier::external_body]
pub struct ExGlobError(globset::Error);

/// The pattern that a glob was parsed from (`Glob::glob`).
pub uninterp spec fn glob_pattern(glob: globset::Glob) -> Seq<char>;

/// The patterns of the globs that were added to a builder, in order.
pub uninterp spec fn builder_patterns(builder: globset::GlobSetBuilder) -> Seq<Seq<char>>;

/// Whether some glob of the set matches the path (`GlobSet::is_match`).
pub uninterp spec fn set_matches(set: globset::GlobSet, path: Seq<char>) -> bool;

/// Whether the pattern parses as a glob with the default options
/// (`Glob::new`).
pub uninterp spec fn glob_parses(pattern: Seq<char>) -> bool;

/// Whether the globs parsed from the patterns make a set
/// (`GlobSetBuilder::build`).
pub uninterp spec fn globs_build(patterns: Seq<Seq<char>>) -> bool;

/// Whether the set that the globs parsed from the patterns make matches the
/// path (`GlobSetBuilder::build`, then `GlobSet::is_match`).
pub uninterp spec fn patterns_match(patterns: Seq<Seq<char>>, path: Seq<char>) -> bool;

/// The text in lower case (`str::to_lowercase`).
pub uninterp spec fn lowercase(text: Seq<char>) -> Seq<char>;

/// `str::to_lowercase` returns the text with each character replaced by its
/// lower-case form.
#[verifier::external_body]
fn to_lowercase(text: &str) -> (lower: String)
    ensures
        lower@ == lowercase(text@),
{
    text.to_lowercase()
}

/// `num_cpus::get` returns the number of logical cores that the process may
/// use, which is at least 1.
pub assume_specification[ num_cpus::get ]() -> (n: usize)
    ensures
        n >= 1,
;

/// `Glob::new` parses a pattern with the default options. Whether it
/// succeeds depends on the pattern alone. A glob that it returns remembers
/// the pattern.
#[verifier::external_body]
fn parse_glob(pattern: &str) -> (r: Result<globset::Glob, globset::Error>)
    ensures
        r is Ok <==> glob_parses(pattern@),
        r matches Ok(glob) ==> glob_pattern(glob) == pattern@,
{
    globset::Glob::new(pattern)
}

/// `GlobSetBuilder::new` returns a builder without globs.
#[verifier::external_body]
fn new_builder() -> (builder: globset::GlobSetBuilder)
    ensures
        builder_patterns(builder) == Seq::<Seq<char>>::empty(),
{
    globset::GlobSetBuilder::new()
}

/// `GlobSetBuilder::add` appends the glob to the builder's globs.
#[verifier::external_body]
fn add_glob(builder: &mut globset::GlobSetBuilder, glob: globset::Glob)
    ensures
        builder_patterns(*final(builder)) == builder_patterns(*old(builder)).push(
            glob_pattern(glob),
        ),
{
    builder.add(glob);
}

/// `GlobSetBuilder::build` makes a set from the globs added so far. Whether
/// it succeeds, and what the set matches, depends on those globs alone. The
/// set does not hold their patterns.
#[verifier::external_body]
fn build_set(builder: &globset::GlobSetBuilder) -> (r: Result<globset::GlobSet, globset::Error>)
    ensures
        r is Ok <==> globs_build(builder_patterns(*builder)),
        r matches Ok(set) ==> forall|path: Seq<char>|
            #[trigger] set_matches(set, path) == patterns_match(builder_patterns(*builder), path),
{
    builder.build()
}

/// `GlobSet::is_match` says whether any glob of the set matches the path.
#[verifier::external_body]
fn is_match(set: &globset::GlobSet, path: &str) -> (matched: bool)
    ensures
        matched == set_matches(*set, path@),
{
    set.is_match(path)
}

/// The text of a `globset::Error` as its `Display` impl writes it. Nothing is
/// claimed of the text.
#[verifier::external_body]
fn glob_error_text(error: &globset::Error) -> (text: String) {
    error.to_string()
}

/// The order in which a traversal visits the nodes of a tree.
#[derive(Debug, Clone, Copy, PartialEq, Eq, Structural)]
pub enum TraversalStrategy {
    DepthFirst,
    BreadthFirst,
}

/// The strategy that a name in lower case stands for.
pub open spec fn strategy_named(lower: Seq<char>) -> Option<TraversalStrategy> {
    if lower == "depth-first"@ || lower == "dfs"@ || lower == "depth"@ {
        Some(TraversalStrategy::DepthFirst)
    } else if lower == "breadth-first"@ || lower == "bfs"@ || lower == "breadth"@ {
        Some(TraversalStrategy::BreadthFirst)
    } else {
        None
    }
}

fn same_text(a: &str, b: &str) -> (same: bool)
    ensures
        same == (a@ == b@),
{
    a.to_owned() == b.to_owned()
}

impl TraversalStrategy {
    /// The strategy that `lower` names, where `lower` is `given` in lower
    /// case; the error quotes the name as it was given.
    pub fn from_lowercase(lower: &str, given: &str) -> (r: Result<TraversalStrategy, String>)
        ensures
            match strategy_named(lower@) {
                Some(strategy) => r == Ok::<TraversalStrategy, String>(strategy),
                None => r matches Err(text) && text@ == "Invalid traversal strategy: "@ + given@,
            },
    {
        if same_text(lower, "depth-first") || same_text(lower, "dfs") || same_text(lower, "depth") {
            Ok(TraversalStrategy::DepthFirst)
        } else if same_text(lower, "breadth-first") || same_text(lower, "bfs") || same_text(
            lower,
            "breadth",
        ) {
            Ok(TraversalStrategy::BreadthFirst)
        } else {
            Err(appended("Invalid traversal strategy: ", given))
        }
    }

    /// The strategy that a name stands for, whatever its case: `depth-first`,
    /// `dfs` or `depth`, and `breadth-first`, `bfs` or `breadth`.
    pub fn parse(name: &str) -> (r: Result<TraversalStrategy, String>)
        ensures
            match strategy_named(lowercase(name@)) {
                Some(strategy) => r == Ok::<TraversalStrategy, String>(strategy),
                None => r matches Err(text) && text@ == "Invalid traversal strategy: "@ + name@,
            },
    {
        let lower = to_lowercase(name);
        Self::from_lowercase(lower.as_str(), name)
    }
}

impl std::str::FromStr for TraversalStrategy {
    type Err = String;

    fn from_str(name: &str) -> (r: Result<Self, String>)
        ensures
            match strategy_named(lowercase(name@)) {
                Some(strategy) => r == Ok::<TraversalStrategy, String>(strategy),
                None => r matches Err(text) && text@ == "Invalid traversal strategy: "@ + name@,
            },
    {
        Self::parse(name)
    }
}

impl Default for TraversalStrategy {
    fn default() -> (strategy: Self)
        ensures
            strategy == TraversalStrategy::DepthFirst,
    {
        TraversalStrategy::DepthFirst
    }
}

/// The limits and filters of an analysis.
#[derive(Debug, Clone)]
pub struct AnalyzerConfig {
    pub max_depth: Option<usize>,
    pub max_files: Option<usize>,
    pub traversal_strategy: TraversalStrategy,
    pub min_file_size: u64,
    pub thread_count: usize,
    pub output_path: Option<String>,
    pub root_path: String,
    pub ignore_patterns: Option<globset::GlobSet>,
}

/// The number of threads that is used where `requested` are asked for on a
/// machine with `cpus` cores: at least one, at most one per core.
pub open spec fn clamped(requested: usize, cpus: usize) -> usize {
    if requested < 1 {
        1
    } else if requested > cpus {
        cpus
    } else {
        requested
    }
}

/// What can be wrong with a configuration.
pub enum ConfigFault {
    /// The root path leads to nothing.
    MissingRoot,
    /// The root path leads to something that is no directory.
    RootNotDirectory,
    /// The depth limit is 0.
    NoDepth,
    /// No thread is asked for.
    NoThreads,
    /// More threads are asked for than the machine has cores.
    TooManyThreads,
}

/// What is wrong with a configuration on a machine with `cpus` cores whose
/// root path leads to `root` (to nothing where `root` is absent): the first
/// fault in the order of [`ConfigFault`], or nothing.
pub open spec fn first_fault(config: AnalyzerConfig, root: Option<FileMetadata>, cpus: usize)
    -> Option<ConfigFault> {
    if root is None {
        Some(ConfigFault::MissingRoot)
    } else if !root->0.is_dir() {
        Some(ConfigFault::RootNotDirectory)
    } else if config.max_depth == Some(0usize) {
        Some(ConfigFault::NoDepth)
    } else if config.thread_count == 0 {
        Some(ConfigFault::NoThreads)
    } else if config.thread_count > cpus {
        Some(ConfigFault::TooManyThreads)
    } else {
        None
    }
}

/// The message of each fault of a configuration.
pub open spec fn fault_message(config: AnalyzerConfig, fault: ConfigFault, cpus: usize) -> Seq<
    char,
> {
    match fault {
        ConfigFault::MissingRoot => "Root path does not exist: "@ + config.root_path@,
        ConfigFault::RootNotDirectory => "Root path is not a directory: "@ + config.root_path@,
        ConfigFault::NoDepth => "Maximum depth must be at least 1"@,
        ConfigFault::NoThreads => "Thread count must be at least 1"@,
        ConfigFault::TooManyThreads => "Thread count "@ + decimal(config.thread_count as nat)
            + " exceeds CPU count "@ + decimal(cpus as nat),
    }
}

/// The message for a glob that did not parse.
pub open spec fn pattern_failure(pattern: Seq<char>, cause: Seq<char>) -> Seq<char> {
    "Invalid glob pattern '"@ + pattern + "': "@ + cause
}

/// The message for globs that made no set.
pub open spec fn build_failure(cause: Seq<char>) -> Seq<char> {
    "Failed to build glob set: "@ + cause
}

/// Every one of the patterns parses as a glob.
pub open spec fn all_parse(patterns: Seq<Seq<char>>) -> bool {
    forall|i: int| 0 <= i < patterns.len() ==> glob_parses(#[trigger] patterns[i])
}

/// The patterns are accepted as ignore patterns: there are none, or each
/// parses as a glob and together the globs make a set.
pub open spec fn accepted(patterns: Seq<Seq<char>>) -> bool {
    patterns.len() == 0 || (all_parse(patterns) && globs_build(patterns))
}

/// The pattern at `i` is the first that does not parse.
pub open spec fn first_unparsed(patterns: Seq<Seq<char>>, i: int) -> bool {
    &&& 0 <= i < patterns.len()
    &&& !glob_parses(patterns[i])
    &&& all_parse(patterns.take(i))
}

/// The message blames what made the patterns fail: the first pattern that
/// does not parse, or, where all parse, the making of the set.
pub open spec fn blames(text: Seq<char>, patterns: Seq<Seq<char>>) -> bool {
    if all_parse(patterns) {
        exists|cause: Seq<char>| text == #[trigger] build_failure(cause)
    } else {
        exists|i: int, cause: Seq<char>|
            first_unparsed(patterns, i) && text == #[trigger] pattern_failure(patterns[i], cause)
    }
}

impl AnalyzerConfig {
    /// Whether the configuration asks to leave out the path, and with it all
    /// that lies below.
    pub open spec fn ignores(&self, path: Seq<char>) -> bool {
        match self.ignore_patterns {
            Some(set) => set_matches(set, path),
            None => false,
        }
    }

    /// The two configurations agree in all but the thread count and the
    /// ignore patterns.
    pub open spec fn same_but(&self, other: &AnalyzerConfig) -> bool {
        &&& self.max_depth == other.max_depth
        &&& self.max_files == other.max_files
        &&& self.traversal_strategy == other.traversal_strategy
        &&& self.min_file_size == other.min_file_size
        &&& self.output_path == other.output_path
        &&& self.root_path == other.root_path
    }

    /// The configuration without limits for a root: depth first, every file,
    /// nothing ignored, one thread per core of this machine.
    pub fn new(root_path: String) -> (config: Self)
        ensures
            config.max_depth is None,
            config.max_files is None,
            config.traversal_strategy == TraversalStrategy::DepthFirst,
            config.min_file_size == 0,
            config.thread_count >= 1,
            config.output_path is None,
            config.root_path == root_path,
            config.ignore_patterns is None,
    {
        AnalyzerConfig {
            max_depth: None,
            max_files: None,
            traversal_strategy: TraversalStrategy::default(),
            min_file_size: 0,
            thread_count: num_cpus::get(),
            output_path: None,
            root_path,
            ignore_patterns: None,
        }
    }

    /// The error for a pattern that did not parse.
    pub fn pattern_error(pattern: &str, cause: &str) -> (e: AnalyzerError)
        ensures
            e matches AnalyzerError::InvalidConfig(text) && text@ == pattern_failure(
                pattern@,
                cause@,
            ),
    {
        let mut text = appended("Invalid glob pattern '", pattern);
        text.append("': ");
        text.append(cause);
        AnalyzerError::InvalidConfig(text)
    }

    /// The error for patterns that parsed but made no set.
    pub fn build_error(cause: &str) -> (e: AnalyzerError)
        ensures
            e matches AnalyzerError::InvalidConfig(text) && text@ == build_failure(cause@),
    {
        AnalyzerError::InvalidConfig(appended("Failed to build glob set: ", cause))
    }

    /// Replaces the ignore patterns by the given globs. Without globs nothing
    /// is ignored. The patterns are accepted exactly if each parses and the
    /// globs make a set, which then matches as the patterns do. Else the
    /// configuration stays as it was, and the error blames the first pattern
    /// that does not parse or, where all parse, the making of the set.
    pub fn set_ignore_patterns(&mut self, patterns: Vec<String>) -> (r: Result<(), AnalyzerError>)
        ensures
            final(self).same_but(old(self)),
            final(self).thread_count == old(self).thread_count,
            r is Ok <==> accepted(text_views(patterns@)),
            match r {
                Ok(_) => if patterns@.len() == 0 {
                    final(self).ignore_patterns is None
                } else {
                    final(self).ignore_patterns matches Some(set) && forall|path: Seq<char>|
                        #[trigger] set_matches(set, path) == patterns_match(
                            text_views(patterns@),
                            path,
                        )
                },
                Err(e) => {
                    &&& e matches AnalyzerError::InvalidConfig(text) && blames(
                        text@,
                        text_views(patterns@),
                    )
                    &&& final(self).ignore_patterns == old(self).ignore_patterns
                },
            },
    {
        if patterns.len() == 0 {
            self.ignore_patterns = None;
            return Ok(());
        }
        let ghost views = text_views(patterns@);
        let mut builder = new_builder();
        let n = patterns.len();
        for i in 0..n
            invariant
                n == patterns@.len(),
                views == text_views(patterns@),
                *self == *old(self),
                builder_patterns(builder) == views.take(i as int),
                all_parse(views.take(i as int)),
        {
            assert(views[i as int] == patterns@[i as int]@);
            match parse_glob(patterns[i].as_str()) {
                Ok(glob) => {
                    add_glob(&mut builder, glob);
                    assert(builder_patterns(builder) =~= views.take(i + 1));
                    assert forall|j: int| 0 <= j < views.take(i + 1).len() implies glob_parses(
                        #[trigger] views.take(i + 1)[j],
                    ) by {
                        if j < i {
                            assert(views.take(i as int)[j] == views.take(i + 1)[j]);
                        }
                    }
                },
                Err(e) => {
                    let cause = glob_error_text(&e);
                    assert(first_unparsed(views, i as int));
                    return Err(Self::pattern_error(patterns[i].as_str(), cause.as_str()));
                },
            }
        }
        assert(views.take(n as int) =~= views);
        match build_set(&builder) {
            Ok(set) => {
                self.ignore_patterns = Some(set);
                Ok(())
            },
            Err(e) => {
                let cause = glob_error_text(&e);
                Err(Self::build_error(cause.as_str()))
            },
        }
    }

    /// Whether the path is left out of the analysis.
    pub fn should_ignore(&self, path: &str) -> (ignored: bool)
        ensures
            ignored == self.ignores(path@),
    {
        match &self.ignore_patterns {
            Some(set) => is_match(set, path),
            None => false,
        }
    }

    /// Checks the configuration on a machine with `cpus` cores. `root` is
    /// what the root path leads to, links followed, and absent where it leads
    /// to nothing. The checks are made in a fixed order: the root exists, it
    /// is a directory, the depth limit is not 0, there is at least one thread
    /// and at most one per core. The first that fails gives the error.
    pub fn validate_on(&self, root: Option<FileMetadata>, cpus: usize) -> (r: Result<
        (),
        AnalyzerError,
    >)
        ensures
            match first_fault(*self, root, cpus) {
                None => r is Ok,
                Some(fault) => r matches Err(AnalyzerError::InvalidConfig(text)) && text@
                    == fault_message(*self, fault, cpus),
            },
    {
        match root {
            None => {
                return Err(
                    AnalyzerError::InvalidConfig(
                        appended("Root path does not exist: ", self.root_path.as_str()),
                    ),
                );
            },
            Some(metadata) => {
                if !metadata.is_dir() {
                    return Err(
                        AnalyzerError::InvalidConfig(
                            appended("Root path is not a directory: ", self.root_path.as_str()),
                        ),
                    );
                }
            },
        }
        match self.max_depth {
            Some(depth) => {
                if depth == 0 {
                    return Err(
                        AnalyzerError::InvalidConfig("Maximum depth must be at least 1".to_owned()),
                    );
                }
            },
            None => {},
        }
        if self.thread_count == 0 {
            return Err(AnalyzerError::InvalidConfig("Thread count must be at least 1".to_owned()));
        }
        if self.thread_count > cpus {
            let mut text = "Thread count ".to_owned();
            push_decimal(&mut text, self.thread_count as u64);
            text.append(" exceeds CPU count ");
            push_decimal(&mut text, cpus as u64);
            return Err(AnalyzerError::InvalidConfig(text));
        }
        Ok(())
    }

    /// Checks the configuration on this machine ([`AnalyzerConfig::validate_on`]
    /// with the number of its cores).
    pub fn validate(&self, root: Option<FileMetadata>) -> (r: Result<(), AnalyzerError>)
        ensures
            r matches Err(e) ==> e is InvalidConfig,
            r is Ok ==> first_fault(*self, root, self.thread_count) is None,
            first_fault(*self, root, 1) is None ==> r is Ok,
    {
        self.validate_on(root, num_cpus::get())
    }

    /// The thread count brought into the range from 1 to `cpus`.
    pub fn clamp_threads(requested: usize, cpus: usize) -> (threads: usize)
        requires
            cpus >= 1,
        ensures
            threads == clamped(requested, cpus),
    {
        if requested < 1 {
            1
        } else if requested > cpus {
            cpus
        } else {
            requested
        }
    }

    /// Brings the thread count into the range from 1 to the number of cores
    /// of this machine.
    pub fn clamp_thread_count(&mut self)
        ensures
            final(self).same_but(old(self)),
            final(self).ignore_patterns == old(self).ignore_patterns,
            exists|cpus: usize|
                cpus >= 1 && final(self).thread_count == #[trigger] clamped(
                    old(self).thread_count,
                    cpus,
                ),
    {
        let cpus = num_cpus::get();
        self.thread_count = Self::clamp_threads(self.thread_count, cpus);
    }
}

} // verus!
