//! Writing records as lines of an output file, in either of the two output
//! formats.

use crate::numerals::{decimal, push_decimal};
use crate::record::{Snp, SnpView};
use crate::text::texts;
use vstd::prelude::*;
use vstd::string::StringExecFns;

verus! {

/// The parts with `sep` between each two of them.
pub open spec fn joined(parts: Seq<Seq<char>>, sep: char) -> Seq<char>
    decreases parts.len(),
{
    if parts.len() == 0 {
        Seq::empty()
    } else if parts.len() == 1 {
        parts[0]
    } else {
        joined(parts.drop_last(), sep) + seq![sep] + parts.last()
    }
}

/// A record as a line of the simple format: scaffold, a colon, position.
pub open spec fn simple_row(record: SnpView) -> Seq<char> {
    record.scaffold + seq![':'] + decimal(record.pos) + seq!['\n']
}

/// A record as a line of the beagle format: name, the two allele codes and
/// the samples' fields as they were read, divided by tabs.
pub open spec fn beagle_row(record: SnpView) -> Seq<char> {
    record.name + seq!['\t'] + decimal(record.a_ref as int) + seq!['\t'] + decimal(
        record.a_alt as int,
    ) + seq!['\t'] + joined(record.ps, '\t') + seq!['\n']
}

/// The names of the output formats are `simple` and `beagle`.
pub open spec fn is_format_name(name: Seq<char>) -> bool {
    name == "simple"@ || name == "beagle"@
}

/// A record as a line of the named format.
pub open spec fn row(record: SnpView, format: Seq<char>) -> Seq<char> {
    if format == "simple"@ {
        simple_row(record)
    } else {
        beagle_row(record)
    }
}

/// Is this the name of an output format?
pub fn is_known_format(name: &str) -> (known: bool)
    ensures
        known == is_format_name(name@),
{
    let name = name.to_owned();
    name == "simple".to_owned() || name == "beagle".to_owned()
}

/// Appends the parts to the text, with `sep` between each two of them.
pub fn push_joined(out: &mut String, parts: &Vec<String>, sep: char)
    ensures
        final(out)@ == old(out)@ + joined(texts(parts@), sep),
{
    let ghost all = texts(parts@);
    let mut i: usize = 0;
    proof {
        assert(all.take(0) =~= Seq::<Seq<char>>::empty());
        assert(out@ =~= old(out)@ + joined(all.take(0), sep));
    }
    while i < parts.len()
        invariant
            0 <= i <= parts.len(),
            all == texts(parts@),
            out@ == old(out)@ + joined(all.take(i as int), sep),
        decreases parts.len() - i,
    {
        let ghost before = out@;
        if i > 0 {
            out.push(sep);
        }
        out.append(parts[i].as_str());
        proof {
            let longer = all.take(i + 1);
            assert(longer.drop_last() =~= all.take(i as int));
            assert(longer.last() == parts@[i as int]@);
            if i == 0 {
                assert(joined(all.take(0), sep) =~= Seq::<char>::empty());
                assert(out@ =~= old(out)@ + joined(longer, sep));
            } else {
                assert(out@ =~= old(out)@ + joined(longer, sep));
            }
        }
        i += 1;
    }
    proof {
        assert(all.take(i as int) =~= all);
    }
}

/// Writes a record as a line of the named format.
pub fn format_snp_out(snp: &Snp, format: &str) -> (out: String)
    requires
        is_format_name(format@),
    ensures
        out@ == row(snp@, format@),
{
    let mut out = String::new();
    if format.to_owned() == "simple".to_owned() {
        out.append(snp.scaffold.as_str());
        out.push(':');
        push_decimal(&mut out, snp.pos);
        out.push('\n');
        proof {
            assert(out@ =~= simple_row(snp@));
        }
    } else {
        out.append(snp.name.as_str());
        out.push('\t');
        push_decimal(&mut out, snp.a_ref as i64);
        out.push('\t');
        push_decimal(&mut out, snp.a_alt as i64);
        out.push('\t');
        push_joined(&mut out, &snp.ps, '\t');
        out.push('\n');
        proof {
            assert(out@ =~= beagle_row(snp@));
        }
    }
    out
}

} // verus!
