//! The ignore rules that a `.gitignore` file brings into force.

use vstd::prelude::*;
use vstd::string::*;
use ignore::gitignore::Gitignore;
use ignore::gitignore::GitignoreBuilder;
use crate::text::{chars_of, string_views};

verus! {

/// `ignore::gitignore::Gitignore`: the matcher for the rules of an ignore
/// file. It is carried about as it is.
#[verifier::external_type_specification]
#[verifier::external_body]
pub struct ExGitignore(ignore::gitignore::Gitignore);

/// `ignore::gitignore::GitignoreBuilder`: what gathers the lines of an
/// ignore file before a matcher is built from them.
#[verifier::external_type_specification]
#[verifier::external_body]
pub struct ExGitignoreBuilder(ignore::gitignore::GitignoreBuilder);

/// The directory that a builder was made for.
pub uninterp spec fn builder_root(builder: GitignoreBuilder) -> Seq<char>;

/// The lines that were handed to a builder so far, in order. A line that
/// the builder passed over (a comment, a blank line, a glob it could not
/// parse) is listed too.
pub uninterp spec fn builder_lines(builder: GitignoreBuilder) -> Seq<Seq<char>>;

/// The directory that a matcher answers for.
pub uninterp spec fn matcher_root(matcher: Gitignore) -> Seq<char>;

/// The lines that a matcher was built from, in order.
pub uninterp spec fn matcher_lines(matcher: Gitignore) -> Seq<Seq<char>>;

/// Whether the rules in `lines`, read as an ignore file that lies in `root`,
/// ignore `path`: the last rule that matches decides, a rule with `!` in
/// front keeps the path, and a rule that ends in `/` speaks of directories
/// only.
pub uninterp spec fn gitignore_ignores(
    root: Seq<char>,
    lines: Seq<Seq<char>>,
    path: Seq<char>,
    is_dir: bool,
) -> bool;

/// Whether the rules in `lines`, read as an ignore file that lies in `root`,
/// can be put together into one matcher.
pub uninterp spec fn gitignore_builds(root: Seq<char>, lines: Seq<Seq<char>>) -> bool;

/// `GitignoreBuilder::new`: a builder for the ignore file of the directory
/// `root`, with no line added yet.
#[verifier::external_body]
fn builder_new(root: &str) -> (builder: GitignoreBuilder)
    ensures
        builder_root(builder) == root@,
        builder_lines(builder) == Seq::<Seq<char>>::empty(),
{
    GitignoreBuilder::new(root)
}

/// `GitignoreBuilder::add_line`: hands one line of the ignore file `from` to
/// the builder. What the builder answers is dropped: a line it cannot parse
/// adds no rule.
#[verifier::external_body]
fn builder_add_line(builder: &mut GitignoreBuilder, from: &str, line: &str)
    ensures
        builder_root(*final(builder)) == builder_root(*old(builder)),
        builder_lines(*final(builder)) == builder_lines(*old(builder)).push(line@),
{
    let _ = builder.add_line(Some(std::path::PathBuf::from(from)), line);
}

/// `GitignoreBuilder::build`: the matcher for the lines added so far, or
/// `None` where the builder reports an error. Whether it reports one
/// depends on the directory and the lines alone.
#[verifier::external_body]
fn builder_build(builder: &GitignoreBuilder) -> (r: Option<Gitignore>)
    ensures
        r is Some <==> gitignore_builds(builder_root(*builder), builder_lines(*builder)),
        r matches Some(matcher) ==> matcher_root(matcher) == builder_root(*builder)
            && matcher_lines(matcher) == builder_lines(*builder),
{
    builder.build().ok()
}

/// `Gitignore::empty`: a matcher without a directory and without rules.
#[verifier::external_body]
fn gitignore_empty() -> (matcher: Gitignore)
    ensures
        matcher_root(matcher) == Seq::<char>::empty(),
        matcher_lines(matcher) == Seq::<Seq<char>>::empty(),
{
    Gitignore::empty()
}

/// `Gitignore::matched`, asked whether the answer is "ignore": what the
/// matcher's rules say of `path`.
#[verifier::external_body]
fn gitignore_matched(matcher: &Gitignore, path: &str, is_dir: bool) -> (r: bool)
    ensures
        r == gitignore_ignores(matcher_root(*matcher), matcher_lines(*matcher), path@, is_dir),
{
    matcher.matched(path, is_dir).is_ignore()
}

/// `line` without the byte-order marks it begins with.
pub open spec fn without_marks(line: Seq<char>) -> Seq<char>
    decreases line.len(),
{
    if line.len() > 0 && line[0] == '\u{feff}' {
        without_marks(line.drop_first())
    } else {
        line
    }
}

/// The lines of an ignore file as rules are read from them: the first
/// without the byte-order marks that it begins with, the others as they are.
pub open spec fn rule_lines(lines: Seq<Seq<char>>) -> Seq<Seq<char>> {
    if lines.len() > 0 {
        lines.update(0, without_marks(lines[0]))
    } else {
        lines
    }
}

fn strip_marks(line: &str) -> (r: &str)
    ensures
        r@ == without_marks(line@),
{
    let all = chars_of(line);
    let n = all.len();
    let mut i: usize = 0;
    assert(line@.subrange(0, n as int) =~= line@);
    while i < n && all[i] == '\u{feff}'
        invariant
            i <= n,
            n == line@.len(),
            all@ == line@,
            without_marks(line@) == without_marks(line@.subrange(i as int, n as int)),
        decreases n - i,
    {
        assert(line@.subrange(i as int, n as int).drop_first() =~= line@.subrange(i + 1, n as int));
        i = i + 1;
    }
    line.substring_char(i, n)
}

/// `Gitignore::clone`: a matcher that is the same as the one it was made
/// from.
pub assume_specification[ <Gitignore as Clone>::clone ](matcher: &Gitignore) -> (r: Gitignore)
    ensures
        r == *matcher,
;

/// The ignore rules in force for a directory and everything below it: none
/// until an ignore file was found, then those of the file found last.
#[derive(Debug)]
pub struct Ignorer {
    pub matcher: Option<Gitignore>,
}

impl Clone for Ignorer {
    fn clone(&self) -> (r: Self)
        ensures
            r == *self,
    {
        Ignorer {
            matcher: match &self.matcher {
                Some(matcher) => Some(matcher.clone()),
                None => None,
            },
        }
    }
}

impl Default for Ignorer {
    /// No rules in force.
    fn default() -> (r: Self)
        ensures
            r.matcher is None,
    {
        Ignorer { matcher: None }
    }
}

impl Ignorer {
    /// Whether the rules in force ignore `path`. Without rules nothing is
    /// ignored.
    pub open spec fn ignores(&self, path: Seq<char>, is_dir: bool) -> bool {
        match self.matcher {
            Some(matcher) => gitignore_ignores(
                matcher_root(matcher),
                matcher_lines(matcher),
                path,
                is_dir,
            ),
            None => false,
        }
    }

    /// True when the rules in force are those of `lines`, read as the ignore
    /// file of `root`.
    pub open spec fn holds(&self, root: Seq<char>, lines: Seq<Seq<char>>) -> bool {
        self.matcher matches Some(matcher) && matcher_root(matcher) == root && matcher_lines(
            matcher,
        ) == lines
    }

    /// True when the rules in force are those that the ignore file of
    /// `root` with the lines `lines` brings: the rules of its lines where
    /// they can be put together, and a matcher without rules where they
    /// cannot.
    pub open spec fn made_from(&self, root: Seq<char>, lines: Seq<Seq<char>>) -> bool {
        if gitignore_builds(root, rule_lines(lines)) {
            self.holds(root, rule_lines(lines))
        } else {
            self.holds(Seq::empty(), Seq::empty())
        }
    }

    /// The rules of an ignore file: `root` is the directory it lies in,
    /// `path` the file itself and `lines` what it holds, line by line. Where
    /// the rules cannot be put together, the result has a matcher without
    /// rules.
    pub fn new(root: &str, path: &str, lines: &Vec<String>) -> (r: Self)
        ensures
            r.made_from(root@, string_views(lines@)),
    {
        let ghost rules = rule_lines(string_views(lines@));
        let mut builder = builder_new(root);
        let mut i: usize = 0;
        assert(rules.subrange(0, 0) =~= Seq::<Seq<char>>::empty());
        while i < lines.len()
            invariant
                i <= lines.len(),
                rules == rule_lines(string_views(lines@)),
                builder_root(builder) == root@,
                builder_lines(builder) == rules.subrange(0, i as int),
            decreases lines.len() - i,
        {
            let line = if i == 0 {
                strip_marks(lines[i].as_str())
            } else {
                lines[i].as_str()
            };
            assert(line@ == rules[i as int]);
            builder_add_line(&mut builder, path, line);
            assert(rules.subrange(0, i as int).push(line@) =~= rules.subrange(0, i + 1));
            i = i + 1;
        }
        assert(rules.subrange(0, i as int) =~= rules);
        match builder_build(&builder) {
            Some(matcher) => Ignorer { matcher: Some(matcher) },
            None => Ignorer { matcher: Some(gitignore_empty()) },
        }
    }

    /// Asks the rules in force about `path`.
    pub fn is_ignore(&self, path: &str, is_dir: bool) -> (r: bool)
        ensures
            r == self.ignores(path@, is_dir),
    {
        match &self.matcher {
            Some(matcher) => gitignore_matched(matcher, path, is_dir),
            None => false,
        }
    }

    /// Whether an ignore file was found.
    pub fn has_matcher(&self) -> (r: bool)
        ensures
            r == self.matcher is Some,
    {
        self.matcher.is_some()
    }
}

} // verus!
