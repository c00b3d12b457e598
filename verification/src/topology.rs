//! How many physical cores a machine has, from the description of its processors.

use vstd::prelude::*;

use crate::text;
use crate::text::Class;

verus! {

/// What has been read of a description so far.
pub struct Reading {
    /// The cores that were found, as numbers of a package and of a core in it.
    pub cores: Set<(u32, u32)>,
    /// The package named since the last core was found.
    pub package: Option<u32>,
    /// The core named since the last core was found.
    pub core: Option<u32>,
}

/// The number that a field of a description holds.
pub open spec fn field(line: Seq<char>, name: Seq<char>) -> Option<u32> {
    match text::number(
        text::trim_start(line.skip(name.len() as int), Class::WhiteOr(':')),
        u32::MAX as nat,
    ) {
        Some(n) => Some(n as u32),
        None => None,
    }
}

impl Reading {
    /// Nothing has been read.
    pub open spec fn start() -> Reading {
        Reading { cores: Set::empty(), package: None, core: None }
    }

    /// The cores, with the one whose description ends here.
    pub open spec fn closed(self) -> Set<(u32, u32)> {
        match (self.package, self.core) {
            (Some(p), Some(c)) => self.cores.insert((p, c)),
            _ => self.cores,
        }
    }

    /// After one more line.
    pub open spec fn line(self, line: Seq<char>) -> Reading {
        if "physical id"@.is_prefix_of(line) {
            Reading { package: field(line, "physical id"@), ..self }
        } else if "core id"@.is_prefix_of(line) {
            Reading { core: field(line, "core id"@), ..self }
        } else if "processor"@.is_prefix_of(line) {
            Reading { cores: self.closed(), package: None, core: None }
        } else {
            self
        }
    }
}

/// What the given lines say.
pub open spec fn read(lines: Seq<Seq<char>>) -> Reading
    decreases lines.len(),
{
    if lines.len() == 0 {
        Reading::start()
    } else {
        read(lines.drop_last()).line(lines.last())
    }
}

/// The physical cores that a description names.
pub open spec fn cores(raw: Seq<char>) -> Set<(u32, u32)> {
    read(text::lines(raw)).closed()
}

fn number_in(line: &[char], name_len: usize) -> (r: Option<u32>)
    requires
        name_len <= line@.len(),
    ensures
        r == (match text::number(
            text::trim_start(line@.skip(name_len as int), Class::WhiteOr(':')),
            u32::MAX as nat,
        ) {
            Some(n) => Some(n as u32),
            None => None,
        }),
{
    proof {
        assert(line@.subrange(name_len as int, line@.len() as int) =~= line@.skip(name_len as int));
    }
    let rest = vstd::slice::slice_subrange(line, name_len, line.len());
    let value = text::without_start(rest, Class::WhiteOr(':'));
    match text::parse_number(value, u32::MAX as u64) {
        Some(n) => Some(n as u32),
        None => None,
    }
}

fn add_core(found: &mut Vec<(u32, u32)>, package: Option<u32>, core: Option<u32>)
    requires
        old(found)@.no_duplicates(),
    ensures
        final(found)@.no_duplicates(),
        final(found)@.to_set() == (Reading { cores: old(found)@.to_set(), package, core }).closed(),
{
    if let (Some(p), Some(c)) = (package, core) {
        let ghost before = found@;
        for i in 0..found.len()
            invariant
                found@ == before,
                before == old(found)@,
                before.no_duplicates(),
                package == Some(p),
                core == Some(c),
                forall|j: int| 0 <= j < i ==> before[j] != (p, c),
        {
            let pair: (u32, u32) = found[i];
            if pair.0 == p && pair.1 == c {
                proof {
                    assert(before[i as int] == (p, c));
                    assert(before.to_set() =~= before.to_set().insert((p, c)));
                }
                return;
            }
        }
        found.push((p, c));
        proof {
            let now = found@;
            assert forall|x: (u32, u32)| now.to_set().contains(x) <==> before.to_set().insert(
                (p, c),
            ).contains(x) by {
                if before.contains(x) {
                    let j = before.index_of(x);
                    assert(now[j] == x);
                }
                if now.contains(x) {
                    let j = now.index_of(x);
                    if j < before.len() {
                        assert(before[j] == x);
                    }
                }
                assert(now[before.len() as int] == (p, c));
            }
            assert(now.to_set() =~= before.to_set().insert((p, c)));
        }
    }
}

/// The number of physical cores that a description of processors names: its pairs of a
/// package and a core, each counted once. `None` where it names none.
pub fn parse_proc_cpuinfo(raw: &str) -> (r: Option<usize>)
    ensures
        match r {
            Some(n) => n == cores(raw@).len() && n > 0,
            None => cores(raw@) == Set::<(u32, u32)>::empty(),
        },
{
    let lines = text::text_lines(raw);
    let ghost all = lines@.map_values(|l: Vec<char>| l@);
    let mut found: Vec<(u32, u32)> = Vec::new();
    let mut package: Option<u32> = None;
    let mut core: Option<u32> = None;
    proof {
        assert(found@.to_set() =~= Set::<(u32, u32)>::empty());
    }
    for i in 0..lines.len()
        invariant
            all == lines@.map_values(|l: Vec<char>| l@),
            found@.no_duplicates(),
            read(all.take(i as int)) == (Reading { cores: found@.to_set(), package, core }),
    {
        let line = lines[i].as_slice();
        proof {
            assert(all.take(i + 1).drop_last() =~= all.take(i as int));
            assert(all[i as int] == line@);
            reveal_strlit("physical id");
            reveal_strlit("core id");
        }
        if text::starts_with(line, "physical id") {
            package = number_in(line, 11);
        } else if text::starts_with(line, "core id") {
            core = number_in(line, 7);
        } else if text::starts_with(line, "processor") {
            add_core(&mut found, package, core);
            package = None;
            core = None;
        }
    }
    add_core(&mut found, package, core);
    proof {
        assert(all.take(all.len() as int) =~= all);
        found@.unique_seq_to_set();
        if found@.len() > 0 {
            assert(found@.to_set().contains(found@[0]));
        }
    }
    if found.len() == 0 {
        proof {
            assert(found@.to_set() =~= Set::<(u32, u32)>::empty());
        }
        None
    } else {
        Some(found.len())
    }
}

/// How many lines begin the description of a logical processor.
pub open spec fn processors(lines: Seq<Seq<char>>) -> nat
    decreases lines.len(),
{
    if lines.len() == 0 {
        0
    } else {
        processors(lines.drop_last()) + if !"physical id"@.is_prefix_of(lines.last())
            && !"core id"@.is_prefix_of(lines.last()) && "processor"@.is_prefix_of(lines.last()) {
            1nat
        } else {
            0nat
        }
    }
}

/// There are never more physical cores than logical processors, in a description that
/// begins with a processor.
pub proof fn law_cores_at_most_processors(raw: Seq<char>)
    requires
        text::lines(raw).len() > 0,
        "processor"@.is_prefix_of(text::lines(raw)[0]),
    ensures
        cores(raw).finite(),
        cores(raw).len() <= processors(text::lines(raw)),
{
    reveal_strlit("physical id");
    reveal_strlit("core id");
    reveal_strlit("processor");
    let lines = text::lines(raw);
    let first = lines[0];
    assert(first.subrange(0, "processor"@.len() as int)[1] == 'r');
    assert(!"physical id"@.is_prefix_of(first)) by {
        if "physical id"@.is_prefix_of(first) {
            assert(first.subrange(0, "physical id"@.len() as int)[1] == 'h');
        }
    }
    assert(!"core id"@.is_prefix_of(first)) by {
        if "core id"@.is_prefix_of(first) {
            assert(first.subrange(0, "core id"@.len() as int)[1] == 'o');
        }
    }
    lemma_cores_bound(lines);
    let r = read(lines);
    if r.package is Some && r.core is Some {
        let x = (r.package->0, r.core->0);
        assert(r.cores.insert(x).len() <= r.cores.len() + 1);
    }
}

proof fn lemma_cores_bound(lines: Seq<Seq<char>>)
    requires
        lines.len() > 0,
        "processor"@.is_prefix_of(lines[0]),
        !"physical id"@.is_prefix_of(lines[0]),
        !"core id"@.is_prefix_of(lines[0]),
    ensures
        read(lines).cores.finite(),
        read(lines).cores.len() + 1 <= processors(lines),
    decreases lines.len(),
{
    if lines.len() == 1 {
        assert(lines.drop_last() =~= Seq::empty());
        reveal_with_fuel(read, 2);
        reveal_with_fuel(processors, 2);
    } else {
        let before = lines.drop_last();
        lemma_cores_bound(before);
        let r = read(before);
        if r.package is Some && r.core is Some {
            let x = (r.package->0, r.core->0);
            assert(r.cores.insert(x).len() <= r.cores.len() + 1);
        }
    }
}

/// A line that names neither a package nor a core and begins no processor says nothing.
pub proof fn law_other_lines(lines: Seq<Seq<char>>, line: Seq<char>)
    requires
        !"physical id"@.is_prefix_of(line),
        !"core id"@.is_prefix_of(line),
        !"processor"@.is_prefix_of(line),
    ensures
        read(lines.push(line)) == read(lines),
{
    assert(lines.push(line).drop_last() =~= lines);
}

/// Nothing but colons and white space.
pub open spec fn is_gap(s: Seq<char>) -> bool {
    forall|i: int| 0 <= i < s.len() ==> #[trigger] s[i] == ':' || Class::White.has(s[i])
}

/// A processor whose package and core are named, in whichever order, adds the pair of both
/// to the cores that the lines in front of it name. One of which only the package or only
/// the core is named adds nothing.
pub proof fn law_core_named(
    lines: Seq<Seq<char>>,
    rest: Seq<char>,
    gap: Seq<char>,
    package: u32,
    core: u32,
)
    requires
        is_gap(gap),
    ensures
        ({
            let begun = lines.push("processor"@ + rest);
            let p = "physical id"@ + gap + text::dec(package as nat);
            let c = "core id"@ + gap + text::dec(core as nat);
            let named = read(lines).closed();
            &&& read(Seq::empty()).closed() == Set::<(u32, u32)>::empty()
            &&& read(begun).closed() == named
            &&& read(begun.push(p)).closed() == named
            &&& read(begun.push(c)).closed() == named
            &&& read(begun.push(p).push(c)).closed() == named.insert((package, core))
            &&& read(begun.push(c).push(p)).closed() == named.insert((package, core))
        }),
{
    reveal_strlit("physical id");
    reveal_strlit("core id");
    reveal_strlit("processor");
    let start = "processor"@ + rest;
    let p = "physical id"@ + gap + text::dec(package as nat);
    let c = "core id"@ + gap + text::dec(core as nat);
    lemma_field("physical id"@, gap, package);
    lemma_field("core id"@, gap, core);
    assert("processor"@ =~= start.subrange(0, 9));
    assert("physical id"@ =~= p.subrange(0, 11));
    assert("core id"@ =~= c.subrange(0, 7));
    assert(start[1] == 'r' && c[1] == 'o');
    assert(!"physical id"@.is_prefix_of(start)) by {
        assert("physical id"@[1] == 'h');
        if "physical id"@.is_prefix_of(start) {
            assert(start.subrange(0, 11)[1] == 'h');
        }
    }
    assert(!"core id"@.is_prefix_of(start)) by {
        assert("core id"@[1] == 'o');
        if "core id"@.is_prefix_of(start) {
            assert(start.subrange(0, 7)[1] == 'o');
        }
    }
    assert(!"physical id"@.is_prefix_of(c)) by {
        assert("physical id"@[1] == 'h');
        if "physical id"@.is_prefix_of(c) {
            assert(c.subrange(0, 11)[1] == 'h');
        }
    }
    let begun = lines.push(start);
    assert(begun.drop_last() =~= lines);
    assert(begun.push(p).drop_last() =~= begun);
    assert(begun.push(c).drop_last() =~= begun);
    assert(begun.push(p).push(c).drop_last() =~= begun.push(p));
    assert(begun.push(c).push(p).drop_last() =~= begun.push(c));
}

proof fn lemma_field(name: Seq<char>, gap: Seq<char>, n: u32)
    requires
        is_gap(gap),
    ensures
        field(name + gap + text::dec(n as nat), name) == Some(n),
{
    let digits = text::dec(n as nat);
    let line = name + gap + digits;
    let value = gap + digits;
    let class = Class::WhiteOr(':');
    assert(line.skip(name.len() as int) =~= value);
    text::law_number_round_trip(n as nat, u32::MAX as nat);
    text::lemma_dec_digits(n as nat);
    assert('0' <= digits[0] <= '9');
    assert forall|i: int| 0 <= i < gap.len() implies class.has(#[trigger] value[i]) == true by {
        assert(value[i] == gap[i]);
    }
    assert(value[gap.len() as int] == digits[0]);
    text::lemma_lead(value, class, true, gap.len() as int);
    assert(text::trim_start(value, class) =~= digits);
}

/// A line that names a package or a core by what is no number takes back the one named before
/// it, and a later line of the same name counts instead of an earlier one.
pub proof fn law_last_named_counts(lines: Seq<Seq<char>>, rest: Seq<char>)
    ensures
        ({
            let n = text::number(
                text::trim_start(rest, Class::WhiteOr(':')),
                0xffff_ffff,
            );
            let p = read(lines.push("physical id"@ + rest));
            let c = read(lines.push("core id"@ + rest));
            &&& n is None ==> p.package is None && c.core is None
            &&& n is Some ==> p.package is Some && c.core is Some && p.package->0 == n->0
                && c.core->0 == n->0
            &&& p.core == read(lines).core && p.cores == read(lines).cores
            &&& c.package == read(lines).package && c.cores == read(lines).cores
        }),
{
    reveal_strlit("physical id");
    reveal_strlit("core id");
    let p = "physical id"@ + rest;
    let c = "core id"@ + rest;
    assert("physical id"@ =~= p.subrange(0, 11));
    assert("core id"@ =~= c.subrange(0, 7));
    assert(!"physical id"@.is_prefix_of(c)) by {
        assert("physical id"@[1] == 'h' && c[1] == 'o');
        if "physical id"@.is_prefix_of(c) {
            assert(c.subrange(0, 11)[1] == 'h');
        }
    }
    assert(p.skip(11) =~= rest);
    assert(c.skip(7) =~= rest);
    assert(lines.push(p).drop_last() =~= lines);
    assert(lines.push(c).drop_last() =~= lines);
    text::law_number(
        text::trim_start(rest, Class::WhiteOr(':')),
        text::number(text::trim_start(rest, Class::WhiteOr(':')), 0xffff_ffff)->0,
        0xffff_ffff,
    );
}

} // verus!
