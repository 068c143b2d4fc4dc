//! Host names: labels joined by dots.

use crate::label::{label_error, label_stops, lemma_label_clear, valid_label, Label, LabelError};
use crate::text::{
    find_first, first_in, join, lemma_first_in_after, lemma_join_len, lemma_join_none_in,
    lemma_join_push, lemma_split_join, lemma_split_step, none_in, pieces, split, to_chars,
};
use vstd::prelude::*;
use vstd::string::StringExecFns;

verus! {

/// A host name like `example.com`.
#[derive(PartialEq, Eq, Debug)]
pub struct Host {
    /// The required, leftmost label of the host name, like `vm` in
    /// `vm.example.com`.
    pub name: Label,
    /// The domains where the host is, like `example` and `com` in
    /// `vm.example.com`.
    pub domains: Vec<Label>,
}

/// Why a text is no host name.
#[derive(PartialEq, Eq, Copy, Clone, Debug, Structural)]
pub enum HostError {
    /// One of the segments is no label.
    LabelError(LabelError),
    /// The host text is empty: there is no label at all.
    NoLabels,
}

impl From<LabelError> for HostError {
    fn from(e: LabelError) -> (r: HostError) {
        HostError::LabelError(e)
    }
}

impl vstd::std_specs::convert::FromSpecImpl<LabelError> for HostError {
    open spec fn obeys_from_spec() -> bool {
        true
    }

    open spec fn from_spec(e: LabelError) -> HostError {
        HostError::LabelError(e)
    }
}

/// A host name as plain texts.
pub ghost struct HostView {
    pub name: Seq<char>,
    pub domains: Seq<Seq<char>>,
}

impl HostView {
    /// The labels of the host, the name first.
    pub open spec fn labels(self) -> Seq<Seq<char>> {
        seq![self.name] + self.domains
    }

    /// Every label of the host is one that `Label` accepts.
    pub open spec fn valid(self) -> bool {
        forall|i: int| 0 <= i < self.labels().len() ==> valid_label(#[trigger] self.labels()[i])
    }

    /// The host as it stands in a URL: the labels joined by `.`.
    pub open spec fn text(self) -> Seq<char> {
        join(self.labels(), '.')
    }
}

/// The texts of a sequence of labels.
pub open spec fn texts(labels: Seq<Label>) -> Seq<Seq<char>> {
    labels.map_values(|label: Label| label@)
}

impl View for Host {
    type V = HostView;

    open spec fn view(&self) -> HostView {
        HostView { name: self.name@, domains: texts(self.domains@) }
    }
}

/// The characters before which a host name ends.
pub open spec fn host_stops() -> Set<char> {
    set!['/', ':']
}

/// The error of the first segment that is no label, if there is one.
pub open spec fn first_label_error(segments: Seq<Seq<char>>) -> Option<LabelError>
    decreases segments.len(),
{
    if segments.len() == 0 {
        None
    } else {
        match label_error(segments[0]) {
            Some(e) => Some(e),
            None => first_label_error(segments.skip(1)),
        }
    }
}

/// The host at the start of `input` and what follows it.
///
/// The host text runs up to the first of `/` and `:`, or to the end. Its
/// segments are its pieces between the dots. An empty host text has none, and
/// so no labels. Every segment has to be a label: the first that is not
/// decides the error.
pub open spec fn parse_host(input: Seq<char>) -> Result<(HostView, Seq<char>), HostError> {
    let n = first_in(input, host_stops());
    let segments = pieces(input.take(n), '.');
    if segments.len() == 0 {
        Err(HostError::NoLabels)
    } else {
        match first_label_error(segments) {
            Some(e) => Err(HostError::LabelError(e)),
            None => Ok(
                (HostView { name: segments[0], domains: segments.skip(1) }, input.skip(n)),
            ),
        }
    }
}

/// The first error of two runs of segments is that of the first run, or else
/// that of the second.
pub proof fn lemma_first_label_error_concat(a: Seq<Seq<char>>, b: Seq<Seq<char>>)
    ensures
        first_label_error(a + b) == match first_label_error(a) {
            Some(e) => Some(e),
            None => first_label_error(b),
        },
    decreases a.len(),
{
    if a.len() == 0 {
        assert(a + b =~= b);
    } else {
        assert((a + b)[0] == a[0]);
        assert((a + b).skip(1) =~= a.skip(1) + b);
        lemma_first_label_error_concat(a.skip(1), b);
    }
}

/// Segments without an error are all labels.
pub proof fn lemma_no_label_error(segments: Seq<Seq<char>>)
    ensures
        first_label_error(segments) is None <==> forall|i: int|
            0 <= i < segments.len() ==> valid_label(#[trigger] segments[i]),
    decreases segments.len(),
{
    if segments.len() > 0 {
        lemma_no_label_error(segments.skip(1));
        if first_label_error(segments) is None {
            assert forall|i: int| 0 <= i < segments.len() implies valid_label(
                #[trigger] segments[i],
            ) by {
                if i > 0 {
                    assert(segments[i] == segments.skip(1)[i - 1]);
                }
            }
        } else if label_error(segments[0]) is None {
            let j = choose|j: int|
                0 <= j < segments.skip(1).len() && !valid_label(#[trigger] segments.skip(1)[j]);
            assert(segments.skip(1)[j] == segments[j + 1]);
        }
    }
}

/// The texts of a longer sequence of labels.
pub proof fn lemma_texts_push(labels: Seq<Label>, last: Label)
    ensures
        texts(labels.push(last)) == texts(labels).push(last@),
{
    assert(texts(labels.push(last)) =~= texts(labels).push(last@));
}

/// A host that was written is read back, whatever follows it, if that begins
/// with one of the characters that end a host.
pub proof fn lemma_host_read_back(host: HostView, rest: Seq<char>)
    requires
        host.valid(),
        rest.len() > 0 ==> host_stops().contains(rest[0]),
    ensures
        parse_host(host.text() + rest) == Ok::<(HostView, Seq<char>), HostError>((host, rest)),
{
    let labels = host.labels();
    let text = host.text();
    let input = text + rest;
    assert forall|p: int| 0 <= p < labels.len() implies none_in(
        #[trigger] labels[p],
        host_stops(),
    ) && none_in(labels[p], set!['.']) by {
        assert(valid_label(labels[p]));
        lemma_label_clear(labels[p]);
        assert forall|i: int| 0 <= i < labels[p].len() implies !host_stops().contains(
            #[trigger] labels[p][i],
        ) && !set!['.'].contains(labels[p][i]) by {
            assert(!label_stops().contains(labels[p][i]));
        }
    }
    lemma_join_none_in(labels, '.', host_stops());
    lemma_first_in_after(text, rest, host_stops());
    assert(valid_label(labels[0]));
    lemma_label_clear(labels[0]);
    lemma_join_len(labels, '.');
    assert(input.take(text.len() as int) =~= text);
    assert(input.skip(text.len() as int) =~= rest);
    lemma_split_join(labels, '.');
    lemma_no_label_error(labels);
    assert(labels[0] == host.name);
    assert(labels.skip(1) =~= host.domains);
}

/// The host that is read from a text has labels only.
pub proof fn lemma_parsed_host_valid(input: Seq<char>)
    requires
        parse_host(input) is Ok,
    ensures
        parse_host(input)->Ok_0.0.valid(),
{
    let n = first_in(input, host_stops());
    let segments = pieces(input.take(n), '.');
    let host = parse_host(input)->Ok_0.0;
    lemma_no_label_error(segments);
    assert(host.labels() =~= segments);
}

impl Clone for Host {
    fn clone(&self) -> (copy: Self)
        ensures
            copy@ == self@,
    {
        let mut domains: Vec<Label> = Vec::new();
        let mut i: usize = 0;
        while i < self.domains.len()
            invariant
                i <= self.domains.len(),
                texts(domains@) == texts(self.domains@).take(i as int),
            decreases self.domains.len() - i,
        {
            let ghost before = domains@;
            domains.push(self.domains[i].clone());
            proof {
                lemma_texts_push(before, domains@[i as int]);
                assert(texts(self.domains@).take(i + 1) =~= texts(self.domains@).take(
                    i as int,
                ).push(self.domains@[i as int]@));
            }
            i += 1;
        }
        assert(texts(self.domains@).take(i as int) =~= texts(self.domains@));
        Host { name: self.name.clone(), domains }
    }
}

impl Host {
    /// Reads a host name at the start of `input`, up to the first of `/` and
    /// `:`, and returns it with the rest of the text.
    pub fn parse(input: &str) -> (r: Result<(Host, &str), HostError>)
        ensures
            match parse_host(input@) {
                Ok((host, rest)) => r matches Ok((h, tail)) && h@ == host && tail@ == rest,
                Err(e) => r matches Err(err) && err == e,
            },
    {
        let chars = to_chars(input);
        proof {
            reveal_strlit("/:");
            let stops = "/:"@;
            assert(stops[0] == '/' && stops[1] == ':');
            assert(stops.to_set() =~= host_stops());
            reveal_strlit(".");
            let dot = "."@;
            assert(dot[0] == '.');
            assert(dot.to_set() =~= set!['.']);
            assert(chars@.subrange(0, chars@.len() as int) =~= input@);
        }
        let end = find_first(&chars, 0, chars.len(), "/:");
        if end == 0 {
            return Err(HostError::NoLabels);
        }
        let ghost text = input@.take(end as int);
        let mut labels: Vec<Label> = Vec::new();
        let mut start: usize = 0;
        proof {
            assert(texts(labels@) =~= Seq::<Seq<char>>::empty());
            assert(text.skip(0) =~= text);
            assert(texts(labels@) + split(text, '.') =~= split(text, '.'));
        }
        loop
            invariant_except_break
                start <= end,
                split(text, '.') == texts(labels@) + split(text.skip(start as int), '.'),
            invariant
                0 < end <= chars.len(),
                end == first_in(input@, host_stops()),
                chars@ == input@,
                text == input@.take(end as int),
                "."@.to_set() == set!['.'],
                first_label_error(texts(labels@)) is None,
            ensures
                labels@.len() >= 1,
                split(text, '.') == texts(labels@),
            decreases end - start,
        {
            let ghost rest = text.skip(start as int);
            assert(chars@.subrange(start as int, end as int) =~= rest);
            let stop = find_first(&chars, start, end, ".");
            let ghost piece = chars@.subrange(start as int, stop as int);
            proof {
                lemma_split_step(rest, '.');
                assert(piece =~= rest.take(stop - start));
            }
            match Label::from_chars(&chars, start, stop) {
                Err(e) => {
                    proof {
                        let after = split(rest, '.');
                        assert(after =~= seq![piece] + after.skip(1));
                        lemma_first_label_error_concat(texts(labels@), after);
                    }
                    return Err(HostError::from(e));
                },
                Ok(label) => {
                    let ghost before = texts(labels@);
                    let ghost labels_before = labels@;
                    labels.push(label);
                    proof {
                        lemma_texts_push(labels_before, label);
                        assert(texts(labels@) =~= before + seq![piece]);
                        lemma_first_label_error_concat(before, seq![piece]);
                        assert(seq![piece].skip(1) =~= Seq::<Seq<char>>::empty());
                        assert(first_label_error(seq![piece].skip(1)) is None);
                        assert(first_label_error(seq![piece]) is None);
                    }
                    if stop == end {
                        assert(split(rest, '.') =~= seq![piece]);
                        break;
                    }
                    proof {
                        assert(rest.skip(stop - start + 1) =~= text.skip(stop + 1));
                        assert(split(rest, '.') =~= seq![piece] + split(
                            text.skip(stop + 1),
                            '.',
                        ));
                    }
                    start = stop + 1;
                },
            }
        }
        let ghost all = texts(labels@);
        let name = labels.remove(0);
        assert(texts(labels@) =~= all.skip(1));
        let rest = input.substring_char(end, chars.len());
        Ok((Host { name, domains: labels }, rest))
    }

    /// The host as it stands in a URL: the labels joined by `.`.
    pub fn to_string(&self) -> (out: String)
        ensures
            out@ == self@.text(),
    {
        let mut out = String::from_str(self.name.as_str());
        let mut i: usize = 0;
        assert((seq![self.name@] + texts(self.domains@).take(0)) =~= seq![self.name@]);
        while i < self.domains.len()
            invariant
                i <= self.domains.len(),
                out@ == join(seq![self.name@] + texts(self.domains@).take(i as int), '.'),
            decreases self.domains.len() - i,
        {
            let ghost done = seq![self.name@] + texts(self.domains@).take(i as int);
            out.push('.');
            out.append(self.domains[i].as_str());
            proof {
                lemma_join_push(done, self.domains@[i as int]@, '.');
                assert(done.push(self.domains@[i as int]@) =~= seq![self.name@] + texts(
                    self.domains@,
                ).take(i + 1));
            }
            i += 1;
        }
        assert(texts(self.domains@).take(i as int) =~= texts(self.domains@));
        out
    }
}

} // verus!
