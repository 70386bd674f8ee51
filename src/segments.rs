use twemoji_assets::svg::SvgTwemojiAsset;
use unicode_segmentation::UnicodeSegmentation;
use vstd::prelude::*;

verus! {

/// The extended grapheme clusters of a string, in order.
pub uninterp spec fn grapheme_clusters(s: Seq<char>) -> Seq<Seq<char>>;

/// The bundled emoji asset that the lookup finds for `cluster`, if any: the asset's emoji and
/// its SVG document.
pub uninterp spec fn twemoji_asset(cluster: Seq<char>) -> Option<(Seq<char>, Seq<char>)>;

/// The pieces, joined in order.
pub open spec fn joined(parts: Seq<Seq<char>>) -> Seq<char>
    decreases parts.len(),
{
    if parts.len() == 0 {
        Seq::empty()
    } else {
        joined(parts.drop_last()) + parts.last()
    }
}

pub open spec fn strings_view(v: Seq<String>) -> Seq<Seq<char>> {
    v.map_values(|s: String| s@)
}

/// Relies on `UnicodeSegmentation::graphemes` with extended clusters: the clusters follow each
/// other in the string, cover it, and none is empty.
#[verifier::external_body]
fn split_graphemes(s: &str) -> (r: Vec<String>)
    ensures
        strings_view(r@) == grapheme_clusters(s@),
        joined(strings_view(r@)) == s@,
        forall|i: int| 0 <= i < r@.len() ==> (#[trigger] r@[i])@.len() > 0,
{
    s.graphemes(true).map(|g| g.to_string()).collect()
}

/// Relies on `SvgTwemojiAsset::from_emoji`: it matches the first ten characters of the given
/// string against the emoji of the bundled assets, and the result is the matched asset's emoji
/// and SVG document. That emoji is a prefix of the string, and the whole string when the string
/// has at most ten characters.
#[verifier::external_body]
fn find_twemoji(cluster: &str) -> (r: Option<(String, String)>)
    ensures
        r is Some <==> twemoji_asset(cluster@) is Some,
        r matches Some((emoji, svg)) ==> {
            &&& twemoji_asset(cluster@) == Some((emoji@, svg@))
            &&& emoji@.len() <= cluster@.len()
            &&& emoji@ == cluster@.take(emoji@.len() as int)
            &&& cluster@.len() <= 10 ==> emoji@ == cluster@
        },
{
    SvgTwemojiAsset::from_emoji(cluster).map(|a| (a.emoji.to_string(), a.data.0.to_string()))
}

/// Whether a cluster is drawn as an emoji: the lookup finds an asset whose emoji is the whole
/// cluster.
pub open spec fn is_emoji(cluster: Seq<char>) -> bool {
    twemoji_asset(cluster) matches Some((emoji, _)) && emoji == cluster
}

/// What a segment stands for: a run of text, or one emoji cluster.
pub enum SegmentView {
    Text(Seq<char>),
    Emoji(Seq<char>),
}

impl SegmentView {
    /// The part of the input string that the segment covers.
    pub open spec fn span(self) -> Seq<char> {
        match self {
            SegmentView::Text(t) => t,
            SegmentView::Emoji(e) => e,
        }
    }
}

/// Classification of a sequence of clusters: each emoji cluster is a segment of its own, and
/// each maximal run of other clusters is one text segment.
pub open spec fn classify(clusters: Seq<Seq<char>>) -> Seq<SegmentView>
    decreases clusters.len(),
{
    if clusters.len() == 0 {
        Seq::empty()
    } else {
        let prev = classify(clusters.drop_last());
        let g = clusters.last();
        if is_emoji(g) {
            prev.push(SegmentView::Emoji(g))
        } else if prev.len() > 0 && prev.last() is Text {
            prev.drop_last().push(SegmentView::Text(prev.last()->Text_0 + g))
        } else {
            prev.push(SegmentView::Text(g))
        }
    }
}

/// The spans of the segments, joined in order.
pub open spec fn spans(segs: Seq<SegmentView>) -> Seq<char> {
    joined(segs.map_values(|v: SegmentView| v.span()))
}

/// A snippet of the input string found between emoji.
#[derive(Debug, Clone)]
pub struct TextSegment(String);

impl View for TextSegment {
    type V = Seq<char>;

    closed spec fn view(&self) -> Seq<char> {
        self.0@
    }
}

impl TextSegment {
    /// Returns the text of the segment.
    pub fn as_str(&self) -> (r: &str)
        ensures
            r@ == self@,
    {
        self.0.as_str()
    }
}

/// A single emoji of the input string, with the SVG document that draws it.
#[derive(Debug)]
pub struct EmojiSegment {
    emoji: String,
    svg: String,
}

impl EmojiSegment {
    #[verifier::type_invariant]
    spec fn inv(self) -> bool {
        twemoji_asset(self.emoji@) == Some((self.emoji@, self.svg@))
    }

    pub closed spec fn emoji_view(self) -> Seq<char> {
        self.emoji@
    }

    /// Returns the SVG document of this emoji.
    pub fn svg(&self) -> (r: &str)
        ensures
            twemoji_asset(self.emoji_view()) == Some((self.emoji_view(), r@)),
    {
        proof {
            use_type_invariant(self);
        }
        self.svg.as_str()
    }

    /// Returns the emoji that this segment stands for.
    pub fn emoji(&self) -> (r: &str)
        ensures
            r@ == self.emoji_view(),
            is_emoji(r@),
    {
        proof {
            use_type_invariant(self);
        }
        self.emoji.as_str()
    }
}

impl Clone for EmojiSegment {
    fn clone(&self) -> (r: EmojiSegment)
        ensures
            r.emoji_view() == self.emoji_view(),
    {
        proof {
            use_type_invariant(self);
        }
        EmojiSegment { emoji: self.emoji.clone(), svg: self.svg.clone() }
    }
}

/// A segment of the input: a text snippet or a single emoji.
#[derive(Debug, Clone)]
pub enum Segment {
    Text(TextSegment),
    Emoji(EmojiSegment),
}

impl View for Segment {
    type V = SegmentView;

    open spec fn view(&self) -> SegmentView {
        match self {
            Segment::Text(t) => SegmentView::Text(t@),
            Segment::Emoji(e) => SegmentView::Emoji(e.emoji_view()),
        }
    }
}

impl Segment {
    /// Returns the inner text segment, or `None` for an emoji.
    pub fn as_text(self) -> (r: Option<TextSegment>)
        ensures
            r is Some <==> self@ is Text,
            r matches Some(t) ==> self@ == SegmentView::Text(t@),
    {
        match self {
            Segment::Text(t) => Some(t),
            Segment::Emoji(_) => None,
        }
    }

    /// Returns the inner emoji segment, or `None` for text.
    pub fn as_emoji(self) -> (r: Option<EmojiSegment>)
        ensures
            r is Some <==> self@ is Emoji,
            r matches Some(e) ==> self@ == SegmentView::Emoji(e.emoji_view()),
    {
        match self {
            Segment::Text(_) => None,
            Segment::Emoji(e) => Some(e),
        }
    }
}

pub open spec fn segments_view(v: Seq<Segment>) -> Seq<SegmentView> {
    v.map_values(|s: Segment| s@)
}

/// A string split into text and emoji segments, ready to be drawn any number of times.
#[derive(Debug, Clone)]
pub struct Segments(Vec<Segment>);

impl View for Segments {
    type V = Seq<SegmentView>;

    closed spec fn view(&self) -> Seq<SegmentView> {
        segments_view(self.0@)
    }
}

proof fn lemma_joined_len(parts: Seq<Seq<char>>)
    requires
        parts.len() > 0,
        parts.last().len() > 0,
    ensures
        joined(parts).len() > 0,
{
}

/// Joining the spans of a classification gives back the clusters, joined.
pub proof fn lemma_classify_spans(clusters: Seq<Seq<char>>)
    ensures
        spans(classify(clusters)) == joined(clusters),
    decreases clusters.len(),
{
    if clusters.len() > 0 {
        let prev = classify(clusters.drop_last());
        let g = clusters.last();
        lemma_classify_spans(clusters.drop_last());
        let f = |v: SegmentView| v.span();
        if is_emoji(g) {
            assert(prev.push(SegmentView::Emoji(g)).map_values(f).drop_last() =~= prev.map_values(
                f,
            ));
        } else if prev.len() > 0 && prev.last() is Text {
            let t = prev.last()->Text_0;
            let cur = prev.drop_last().push(SegmentView::Text(t + g));
            assert(cur.map_values(f).drop_last() =~= prev.drop_last().map_values(f));
            assert(prev.map_values(f).drop_last() =~= prev.drop_last().map_values(f));
            assert(spans(prev) == joined(prev.drop_last().map_values(f)) + t);
            assert(joined(prev.drop_last().map_values(f)) + t + g =~= joined(
                prev.drop_last().map_values(f),
            ) + (t + g));
        } else {
            assert(prev.push(SegmentView::Text(g)).map_values(f).drop_last() =~= prev.map_values(
                f,
            ));
        }
    }
}

/// The emoji segments of a classification, in order.
pub open spec fn emoji_segments(segs: Seq<SegmentView>) -> Seq<Seq<char>>
    decreases segs.len(),
{
    if segs.len() == 0 {
        Seq::empty()
    } else {
        match segs.last() {
            SegmentView::Emoji(e) => emoji_segments(segs.drop_last()).push(e),
            SegmentView::Text(_) => emoji_segments(segs.drop_last()),
        }
    }
}

/// The emoji clusters of a sequence of clusters, in order.
pub open spec fn emoji_clusters(clusters: Seq<Seq<char>>) -> Seq<Seq<char>>
    decreases clusters.len(),
{
    if clusters.len() == 0 {
        Seq::empty()
    } else if is_emoji(clusters.last()) {
        emoji_clusters(clusters.drop_last()).push(clusters.last())
    } else {
        emoji_clusters(clusters.drop_last())
    }
}

/// Emoji are never merged: each emoji cluster becomes an emoji segment of its own, in the
/// order of the clusters, and no other emoji segment appears.
pub proof fn lemma_each_emoji_own_segment(clusters: Seq<Seq<char>>)
    ensures
        emoji_segments(classify(clusters)) == emoji_clusters(clusters),
    decreases clusters.len(),
{
    if clusters.len() > 0 {
        lemma_each_emoji_own_segment(clusters.drop_last());
        let prev = classify(clusters.drop_last());
        let g = clusters.last();
        if !is_emoji(g) && prev.len() > 0 && prev.last() is Text {
            let cur = prev.drop_last().push(SegmentView::Text(prev.last()->Text_0 + g));
            assert(cur.drop_last() =~= prev.drop_last());
        } else if is_emoji(g) {
            assert(prev.push(SegmentView::Emoji(g)).drop_last() =~= prev);
        } else {
            assert(prev.push(SegmentView::Text(g)).drop_last() =~= prev);
        }
    }
}

/// A string that is a single emoji cluster is a single emoji segment.
pub proof fn lemma_single_emoji(cluster: Seq<char>)
    requires
        is_emoji(cluster),
    ensures
        classify(seq![cluster]) == seq![SegmentView::Emoji(cluster)],
{
    let one = seq![cluster];
    assert(one.drop_last() =~= Seq::<Seq<char>>::empty());
    assert(one.last() == cluster);
    assert(classify(one.drop_last()) == Seq::<SegmentView>::empty());
    assert(Seq::<SegmentView>::empty().push(SegmentView::Emoji(cluster)) =~= seq![
        SegmentView::Emoji(cluster),
    ]);
}

/// Consecutive emoji clusters, equal or not, each become an emoji segment of their own, in order.
pub proof fn lemma_three_emoji(a: Seq<char>, b: Seq<char>, c: Seq<char>)
    requires
        is_emoji(a),
        is_emoji(b),
        is_emoji(c),
    ensures
        classify(seq![a, b, c]) == seq![
            SegmentView::Emoji(a),
            SegmentView::Emoji(b),
            SegmentView::Emoji(c),
        ],
{
    lemma_single_emoji(a);
    assert(seq![a, b, c].drop_last() =~= seq![a, b]);
    assert(seq![a, b].drop_last() =~= seq![a]);
    assert(seq![a, b, c].last() == c);
    assert(seq![a, b].last() == b);
    assert(classify(seq![a, b]) == seq![SegmentView::Emoji(a)].push(SegmentView::Emoji(b)));
    assert(seq![SegmentView::Emoji(a)].push(SegmentView::Emoji(b)).push(SegmentView::Emoji(c))
        =~= seq![SegmentView::Emoji(a), SegmentView::Emoji(b), SegmentView::Emoji(c)]);
}

/// Every text segment is non-empty.
pub open spec fn texts_nonempty(segs: Seq<SegmentView>) -> bool {
    forall|i: int| 0 <= i < segs.len() && #[trigger] segs[i] is Text ==> segs[i]->Text_0.len() > 0
}

/// No text segment follows another: text runs are maximal.
pub open spec fn texts_maximal(segs: Seq<SegmentView>) -> bool {
    forall|i: int| 0 <= i < segs.len() - 1 ==> !(#[trigger] segs[i] is Text && segs[i + 1] is Text)
}

/// Text runs of a classification are maximal, and non-empty when no cluster is empty.
pub proof fn lemma_classify_shape(clusters: Seq<Seq<char>>)
    ensures
        texts_maximal(classify(clusters)),
        (forall|i: int| 0 <= i < clusters.len() ==> (#[trigger] clusters[i]).len() > 0)
            ==> texts_nonempty(classify(clusters)),
    decreases clusters.len(),
{
    if clusters.len() > 0 {
        let rest = clusters.drop_last();
        lemma_classify_shape(rest);
        let prev = classify(rest);
        let g = clusters.last();
        let cur = classify(clusters);
        if forall|i: int| 0 <= i < clusters.len() ==> (#[trigger] clusters[i]).len() > 0 {
            assert forall|i: int| 0 <= i < rest.len() implies (#[trigger] rest[i]).len() > 0 by {
                assert(rest[i] == clusters[i]);
            }
            assert(g == clusters[clusters.len() - 1]);
        }
        if is_emoji(g) {
            assert(forall|i: int| 0 <= i < prev.len() ==> cur[i] == prev[i]);
        } else if prev.len() > 0 && prev.last() is Text {
            assert(forall|i: int| 0 <= i < prev.len() - 1 ==> cur[i] == prev[i]);
            assert(prev.len() >= 2 ==> !(prev[prev.len() - 2] is Text));
        } else {
            assert(forall|i: int| 0 <= i < prev.len() ==> cur[i] == prev[i]);
        }
    }
}

impl Segments {
    /// Classifies a sequence of grapheme clusters: each cluster that is exactly the emoji of a
    /// bundled asset is a segment of its own, and each maximal run of other clusters is one text
    /// segment.
    pub fn from_clusters(clusters: Vec<String>) -> (r: Segments)
        ensures
            r@ == classify(strings_view(clusters@)),
            spans(r@) == joined(strings_view(clusters@)),
            texts_maximal(r@),
            (forall|i: int| 0 <= i < clusters@.len() ==> (#[trigger] clusters@[i])@.len() > 0)
                ==> texts_nonempty(r@),
            emoji_segments(r@) == emoji_clusters(strings_view(clusters@)),
    {
        let ghost gs = strings_view(clusters@);
        let mut segments: Vec<Segment> = Vec::new();
        let mut pending: Option<String> = None;
        let mut i: usize = 0;
        while i < clusters.len()
            invariant
                0 <= i <= clusters@.len(),
                gs == strings_view(clusters@),
                match pending {
                    Some(t) => classify(gs.take(i as int)) == segments_view(segments@).push(
                        SegmentView::Text(t@),
                    ),
                    None => classify(gs.take(i as int)) == segments_view(segments@) && (
                    segments@.len() == 0 || !(segments@.last()@ is Text)),
                },
            decreases clusters@.len() - i,
        {
            let g = &clusters[i];
            assert(gs.take(i + 1).drop_last() =~= gs.take(i as int));
            assert(gs.take(i + 1).last() == g@);
            let found = find_twemoji(g.as_str());
            let mut whole: Option<EmojiSegment> = None;
            match found {
                Some((emoji, svg)) => {
                    if emoji == *g {
                        whole = Some(EmojiSegment { emoji, svg });
                    }
                },
                None => {},
            }
            assert(whole is Some <==> is_emoji(g@));
            match whole {
                Some(e) => {
                    match pending {
                        Some(t) => {
                            segments.push(Segment::Text(TextSegment(t)));
                        },
                        None => {},
                    }
                    pending = None;
                    segments.push(Segment::Emoji(e));
                    assert(segments_view(segments@) =~= segments_view(segments@.drop_last()).push(
                        segments@.last()@,
                    ));
                },
                None => {
                    match pending {
                        Some(t) => {
                            let mut t2 = t;
                            t2.append(g.as_str());
                            pending = Some(t2);
                        },
                        None => {
                            pending = Some(g.clone());
                        },
                    }
                },
            }
            i = i + 1;
        }
        assert(gs.take(clusters@.len() as int) =~= gs);
        match pending {
            Some(t) => {
                segments.push(Segment::Text(TextSegment(t)));
            },
            None => {},
        }
        assert(segments_view(segments@) == classify(gs));
        proof {
            lemma_classify_spans(gs);
            lemma_classify_shape(gs);
            lemma_each_emoji_own_segment(gs);
            if forall|i: int| 0 <= i < clusters@.len() ==> (#[trigger] clusters@[i])@.len() > 0 {
                assert forall|i: int| 0 <= i < gs.len() implies (#[trigger] gs[i]).len() > 0 by {
                    assert(gs[i] == clusters@[i]@);
                }
            }
        }
        Segments(segments)
    }

    /// Splits `s` into its grapheme clusters and classifies them: each cluster that is exactly
    /// the emoji of a bundled asset is a segment of its own, and each maximal run of other
    /// clusters is one text segment.
    pub fn new(s: &str) -> (r: Segments)
        ensures
            r@ == classify(grapheme_clusters(s@)),
            spans(r@) == s@,
            s@.len() == 0 ==> r@.len() == 0,
            texts_nonempty(r@),
            texts_maximal(r@),
            emoji_segments(r@) == emoji_clusters(grapheme_clusters(s@)),
    {
        let clusters = split_graphemes(s);
        let r = Segments::from_clusters(clusters);
        proof {
            if s@.len() == 0 && r@.len() > 0 {
                lemma_classify_spans(grapheme_clusters(s@));
                let gs = grapheme_clusters(s@);
                if gs.len() > 0 {
                    lemma_joined_len(gs);
                }
            }
        }
        r
    }

    /// Returns the segments, in order.
    pub fn as_slice(&self) -> (r: &[Segment])
        ensures
            segments_view(r@) == self@,
    {
        self.0.as_slice()
    }
}

} // verus!
