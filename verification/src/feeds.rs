//! Feeds and what they offer. The catalogue lists the feeds one per line as
//! `url|title|tag,tag,...`, with `#` opening a comment line. A feed document
//! holds entries; an entry that is not too old becomes an item.

use crate::db::{Item, ItemView};
use crate::text::{chars_of, find_from, first_index, lemma_first_index_is, split_on};
use vstd::prelude::*;
use vstd::string::*;

verus! {

/// A source that is polled for items. The URL identifies it.
#[derive(Debug)]
pub struct Feed {
    pub url: String,
    pub title: String,
    pub tags: Vec<String>,
}

/// The mathematical value of a [`Feed`].
pub struct FeedView {
    pub url: Seq<char>,
    pub title: Seq<char>,
    pub tags: Seq<Seq<char>>,
}

impl View for Feed {
    type V = FeedView;

    open spec fn view(&self) -> FeedView {
        FeedView { url: self.url@, title: self.title@, tags: self.tags.deep_view() }
    }
}

impl DeepView for Feed {
    type V = FeedView;

    open spec fn deep_view(&self) -> FeedView {
        self@
    }
}

/// A copy of each text of `texts`.
pub fn clone_texts(texts: &Vec<String>) -> (copy: Vec<String>)
    ensures
        copy.deep_view() == texts.deep_view(),
{
    let mut copy: Vec<String> = Vec::new();
    let mut i: usize = 0;
    while i < texts.len()
        invariant
            i <= texts.len(),
            copy.deep_view() == texts.deep_view().take(i as int),
        decreases texts.len() - i,
    {
        let ghost done = copy.deep_view();
        copy.push(texts[i].clone());
        assert(copy.deep_view() =~= done.push(texts[i as int]@));
        assert(texts.deep_view().take(i + 1) =~= texts.deep_view().take(i as int).push(
            texts[i as int]@,
        ));
        i += 1;
    }
    assert(texts.deep_view().take(texts.len() as int) =~= texts.deep_view());
    copy
}

impl Clone for Feed {
    fn clone(&self) -> (copy: Feed)
        ensures
            copy@ == self@,
    {
        Feed { url: self.url.clone(), title: self.title.clone(), tags: clone_texts(&self.tags) }
    }
}

/// The position of the first feed with this URL, or the number of feeds if
/// none has it.
pub open spec fn feed_index(feeds: Seq<FeedView>, url: Seq<char>) -> int
    decreases feeds.len(),
{
    if feeds.len() == 0 {
        0
    } else if feeds[0].url == url {
        0
    } else {
        1 + feed_index(feeds.drop_first(), url)
    }
}

/// The feeds with `feed` in the place of the one that has its URL, or at the
/// end if none has it.
pub open spec fn remembered(feeds: Seq<FeedView>, feed: FeedView) -> Seq<FeedView> {
    let at = feed_index(feeds, feed.url);
    if 0 <= at < feeds.len() {
        feeds.update(at, feed)
    } else {
        feeds.push(feed)
    }
}

/// `remembered` of each of `more` in turn, first to last.
pub open spec fn remembered_all(feeds: Seq<FeedView>, more: Seq<FeedView>) -> Seq<FeedView>
    decreases more.len(),
{
    if more.len() == 0 {
        feeds
    } else {
        remembered(remembered_all(feeds, more.drop_last()), more.last())
    }
}

/// `feed_index` is the first position with the URL.
proof fn lemma_feed_index(feeds: Seq<FeedView>, url: Seq<char>, at: int)
    requires
        0 <= at <= feeds.len(),
        forall|k: int| 0 <= k < at ==> feeds[k].url != url,
        at < feeds.len() ==> feeds[at].url == url,
    ensures
        feed_index(feeds, url) == at,
    decreases feeds.len(),
{
    if at > 0 {
        let rest = feeds.drop_first();
        assert forall|k: int| 0 <= k < at - 1 implies rest[k].url != url by {
            assert(rest[k] == feeds[k + 1]);
        }
        lemma_feed_index(rest, url, at - 1);
    }
}

/// Puts `feed` in the place of the feed that has its URL, or at the end if
/// none has it.
pub fn remember(feeds: &mut Vec<Feed>, feed: Feed)
    ensures
        final(feeds).deep_view() == remembered(old(feeds).deep_view(), feed@),
{
    let mut at: usize = 0;
    while at < feeds.len() && !(feeds[at].url == feed.url)
        invariant
            at <= feeds.len(),
            feeds == old(feeds),
            forall|k: int| 0 <= k < at ==> (#[trigger] feeds.deep_view()[k]).url != feed@.url,
        decreases feeds.len() - at,
    {
        at += 1;
    }
    proof {
        lemma_feed_index(feeds.deep_view(), feed@.url, at as int);
    }
    let ghost before = feeds.deep_view();
    if at < feeds.len() {
        feeds.set(at, feed);
        assert(feeds.deep_view() =~= before.update(at as int, feed@));
    } else {
        feeds.push(feed);
        assert(feeds.deep_view() =~= before.push(feed@));
    }
}

/// The title of the feed with this URL, of the first if there are several.
pub open spec fn title_of(feeds: Seq<FeedView>, url: Seq<char>) -> Option<Seq<char>> {
    let at = feed_index(feeds, url);
    if 0 <= at < feeds.len() {
        Some(feeds[at].title)
    } else {
        None
    }
}

/// Looks up the title of the feed with this URL.
pub fn feed_title(feeds: &Vec<Feed>, url: &String) -> (title: Option<String>)
    ensures
        title.deep_view() == title_of(feeds.deep_view(), url@),
{
    let mut at: usize = 0;
    while at < feeds.len() && !(feeds[at].url == *url)
        invariant
            at <= feeds.len(),
            forall|k: int| 0 <= k < at ==> (#[trigger] feeds.deep_view()[k]).url != url@,
        decreases feeds.len() - at,
    {
        at += 1;
    }
    proof {
        lemma_feed_index(feeds.deep_view(), url@, at as int);
    }
    if at < feeds.len() {
        Some(feeds[at].title.clone())
    } else {
        None
    }
}

/// A line without the carriage return that may end it.
pub open spec fn strip_cr(line: Seq<char>) -> Seq<char> {
    if line.len() > 0 && line.last() == '\r' {
        line.drop_last()
    } else {
        line
    }
}

/// The lines of a text. A line ends at a line feed, which is not part of it,
/// nor is a carriage return just before that line feed. What follows the last
/// line feed is a line too unless it is empty.
pub open spec fn lines_of(text: Seq<char>) -> Seq<Seq<char>>
    decreases text.len(),
{
    let at = first_index(text, '\n');
    if text.len() == 0 {
        Seq::empty()
    } else if 0 <= at < text.len() {
        seq![strip_cr(text.take(at))] + lines_of(text.skip(at + 1))
    } else {
        seq![text]
    }
}

/// The feed that a line describes. A comment line describes none, nor does a
/// line without a `|` after the URL. The title ends at the second `|`; what
/// follows that is the list of tags, separated by commas. A line that stops
/// after the title has the one tag that an empty list of tags splits into.
pub open spec fn feed_of_line(line: Seq<char>) -> Option<FeedView> {
    let bar = first_index(line, '|');
    let rest = line.skip(bar + 1);
    let end = first_index(rest, '|');
    if line.len() > 0 && line[0] == '#' {
        None
    } else if !(0 <= bar < line.len()) {
        None
    } else {
        Some(
            FeedView {
                url: line.take(bar),
                title: rest.take(end),
                tags: split_on(
                    if 0 <= end < rest.len() {
                        rest.skip(end + 1)
                    } else {
                        Seq::empty()
                    },
                    ',',
                ),
            },
        )
    }
}

/// The feeds that a catalogue text describes, in the order of its lines.
pub open spec fn catalogue(text: Seq<char>) -> Seq<FeedView> {
    lines_of(text).filter_map(|line: Seq<char>| feed_of_line(line))
}

/// A line written as URL, title and list of tags with `|` between them reads
/// as the feed with these three, provided that neither the URL nor the title
/// holds a `|` of its own and the URL does not open a comment.
pub proof fn lemma_feed_of_line(url: Seq<char>, title: Seq<char>, tags: Seq<char>)
    requires
        !url.contains('|'),
        !title.contains('|'),
        url.len() == 0 || url[0] != '#',
    ensures
        feed_of_line(url + seq!['|'] + title + seq!['|'] + tags) == Some(
            FeedView { url, title, tags: split_on(tags, ',') },
        ),
        feed_of_line(url + seq!['|'] + title) == Some(
            FeedView { url, title, tags: split_on(Seq::empty(), ',') },
        ),
        feed_of_line(url) == None::<FeedView>,
{
    let long = url + seq!['|'] + title + seq!['|'] + tags;
    let short = url + seq!['|'] + title;
    let after = title + seq!['|'] + tags;
    let bar = url.len() as int;
    assert forall|k: int| 0 <= k < url.len() implies url[k] != '|' by {
        if url[k] == '|' {
            assert(url.contains('|'));
        }
    }
    assert forall|k: int| 0 <= k < title.len() implies title[k] != '|' by {
        if title[k] == '|' {
            assert(title.contains('|'));
        }
    }
    lemma_first_index_is(long, '|', bar);
    lemma_first_index_is(short, '|', bar);
    lemma_first_index_is(url, '|', bar);
    assert(long.skip(bar + 1) =~= after);
    assert(short.skip(bar + 1) =~= title);
    lemma_first_index_is(after, '|', title.len() as int);
    lemma_first_index_is(title, '|', title.len() as int);
    assert(long.take(bar) =~= url);
    assert(short.take(bar) =~= url);
    assert(after.take(title.len() as int) =~= title);
    assert(title.take(title.len() as int) =~= title);
    assert(after.skip(title.len() as int + 1) =~= tags);
    if url.len() > 0 {
        assert(long[0] == url[0]);
        assert(short[0] == url[0]);
    }
}

/// The characters of `text` from `from` up to `to`, as a string of their own.
fn piece(text: &str, from: usize, to: usize) -> (part: String)
    requires
        from <= to <= text@.len(),
    ensures
        part@ == text@.subrange(from as int, to as int),
{
    String::from_str(text.substring_char(from, to))
}

/// Splits the characters of `text` from `from` on at each `sep`.
fn split_from(text: &str, chars: &Vec<char>, from: usize, sep: char) -> (parts: Vec<String>)
    requires
        chars@ == text@,
        from <= chars.len(),
    ensures
        parts.deep_view() == split_on(text@.skip(from as int), sep),
{
    let mut parts: Vec<String> = Vec::new();
    let mut start: usize = from;
    loop
        invariant
            chars@ == text@,
            from <= start <= chars.len(),
            split_on(text@.skip(from as int), sep) == parts.deep_view() + split_on(
                text@.skip(start as int),
                sep,
            ),
        decreases chars.len() - start,
    {
        let at = find_from(chars, start, sep);
        let part = piece(text, start, at);
        let ghost rest = text@.skip(start as int);
        let ghost done = parts.deep_view();
        proof {
            assert(rest.take(at - start) =~= text@.subrange(start as int, at as int));
        }
        parts.push(part);
        assert(parts.deep_view() =~= done.push(rest.take(at - start)));
        if at == chars.len() {
            assert(split_on(rest, sep) =~= seq![rest.take(at - start)]) by {
                assert(rest.take(at - start) =~= rest);
            }
            return parts;
        }
        proof {
            assert(rest.skip(at - start + 1) =~= text@.skip(at + 1));
        }
        start = at + 1;
    }
}

/// Reads one line of the catalogue.
pub fn parse_feed(line: &str) -> (feed: Option<Feed>)
    ensures
        feed.deep_view() == feed_of_line(line@),
{
    let chars = chars_of(line);
    let n = chars.len();
    if n > 0 && chars[0] == '#' {
        return None;
    }
    let bar = find_from(&chars, 0, '|');
    assert(chars@.skip(0) =~= line@);
    if bar == n {
        return None;
    }
    let end = find_from(&chars, bar + 1, '|');
    let ghost rest = line@.skip(bar + 1);
    let url = piece(line, 0, bar);
    let title = piece(line, bar + 1, end);
    proof {
        assert(line@.take(bar as int) =~= line@.subrange(0, bar as int));
        assert(rest.take(end - (bar + 1)) =~= line@.subrange(bar + 1, end as int));
    }
    let tags = if end < n {
        proof {
            assert(rest.skip(end - (bar + 1) + 1) =~= line@.skip(end + 1));
        }
        split_from(line, &chars, end + 1, ',')
    } else {
        proof {
            assert(line@.skip(n as int) =~= Seq::<char>::empty());
        }
        split_from(line, &chars, n, ',')
    };
    Some(Feed { url, title, tags })
}

/// Reads a catalogue text: one feed for each line that describes one.
pub fn load_feeds(content: &str) -> (feeds: Vec<Feed>)
    ensures
        feeds.deep_view() == catalogue(content@),
{
    let chars = chars_of(content);
    let n = chars.len();
    let ghost lines = lines_of(content@);
    let ghost read = |line: Seq<char>| feed_of_line(line);
    let mut feeds: Vec<Feed> = Vec::new();
    let mut start: usize = 0;
    let ghost mut k: int = 0;
    assert(content@.skip(0) =~= content@);
    while start < n
        invariant
            chars@ == content@,
            n == chars.len(),
            start <= n,
            lines == lines_of(content@),
            read == |line: Seq<char>| feed_of_line(line),
            0 <= k <= lines.len(),
            lines.skip(k) =~= lines_of(content@.skip(start as int)),
            feeds.deep_view() == lines.take(k).filter_map(read),
        decreases n - start,
    {
        let ghost rest = content@.skip(start as int);
        let end = find_from(&chars, start, '\n');
        let mut stop = end;
        if end < n && stop > start && chars[stop - 1] == '\r' {
            stop = stop - 1;
        }
        let line = piece(content, start, stop);
        proof {
            let whole = rest.take(end - start);
            assert(whole =~= content@.subrange(start as int, end as int));
            if end < n {
                assert(strip_cr(whole) =~= line@);
                assert(rest.skip(end - start + 1) =~= content@.skip(end + 1));
            } else {
                assert(rest =~= line@);
                assert(content@.skip(n as int) =~= Seq::<char>::empty());
            }
            assert(lines.skip(k)[0] == line@);
            assert(lines.skip(k).len() == lines.len() - k);
            assert(lines[k] == lines.skip(k)[0]);
            assert(lines.skip(k + 1) =~= lines.skip(k).skip(1));
            lines.lemma_filter_map_take_succ(read, k);
        }
        let ghost done = feeds.deep_view();
        match parse_feed(line.as_str()) {
            Some(feed) => {
                feeds.push(feed);
                assert(feeds.deep_view() =~= done + seq![feed@]);
            },
            None => {},
        }
        proof {
            k = k + 1;
        }
        start = if end < n {
            end + 1
        } else {
            n
        };
    }
    proof {
        assert(lines.skip(k).len() == 0);
        assert(lines.take(k) =~= lines);
    }
    feeds
}

/// The greatest age, in seconds, at which an item is still taken in: 182
/// days from its publication.
pub const MAX_AGE: i64 = 60 * 60 * 24 * 182;

/// What a feed document says of one entry, as it stands there.
#[derive(Debug)]
pub struct Entry {
    pub title: Option<String>,
    pub link: Option<String>,
    pub pub_date: Option<String>,
    pub description: Option<String>,
}

/// The mathematical value of an [`Entry`].
pub struct EntryView {
    pub title: Option<Seq<char>>,
    pub link: Option<Seq<char>>,
    pub pub_date: Option<Seq<char>>,
    pub description: Option<Seq<char>>,
}

impl View for Entry {
    type V = EntryView;

    open spec fn view(&self) -> EntryView {
        EntryView {
            title: self.title.deep_view(),
            link: self.link.deep_view(),
            pub_date: self.pub_date.deep_view(),
            description: self.description.deep_view(),
        }
    }
}

impl DeepView for Entry {
    type V = EntryView;

    open spec fn deep_view(&self) -> EntryView {
        self@
    }
}

/// Why a feed gave no items.
#[derive(Debug, Clone, Copy, PartialEq, Eq, Structural)]
pub enum FeedError {
    /// Its document could not be fetched.
    Unreachable,
    /// Its document is not a channel that can be read.
    Malformed,
}

/// `rss::Error`: why the crate could not read a document. Nothing of it is
/// looked into here.
#[verifier::external_type_specification]
#[verifier::external_body]
pub struct ExChannelError(rss::Error);

/// The entries of the channel that a feed document holds, in document order;
/// nothing for a document that is no readable channel.
pub uninterp spec fn channel_entries(content: Seq<u8>) -> Option<Seq<EntryView>>;

/// The moment that a date in the notation of RFC 2822 names, in seconds since
/// the start of 1970 (UTC); nothing for a text that is no such date.
pub uninterp spec fn rfc2822_seconds(text: Seq<char>) -> Option<i64>;

/// The Markdown text that stands for a piece of HTML.
pub uninterp spec fn html_as_markdown(html: Seq<char>) -> Seq<char>;

/// `rss::Channel::read_from` on the document, then `Channel::items` and of
/// each item `title`, `link`, `pub_date` and `description`, copied as they
/// are. Trusted: the entries are those that the crate reads from these bytes,
/// and reading the same bytes gives the same entries or the same failure.
#[verifier::external_body]
fn read_channel(content: &[u8]) -> (read: Result<Vec<Entry>, rss::Error>)
    ensures
        match read {
            Ok(entries) => channel_entries(content@) == Some(entries.deep_view()),
            Err(_) => channel_entries(content@).is_none(),
        },
{
    let channel = rss::Channel::read_from(content)?;
    Ok(
        channel.items().iter().map(
            |it| Entry {
                title: it.title().map(String::from),
                link: it.link().map(String::from),
                pub_date: it.pub_date().map(String::from),
                description: it.description().map(String::from),
            },
        ).collect(),
    )
}

/// `chrono::DateTime::parse_from_rfc2822`, then `DateTime::timestamp`.
/// Trusted: the seconds are those that chrono reads from this text, and a
/// text that chrono rejects gives nothing.
#[verifier::external_body]
fn parse_date(text: &str) -> (seconds: Option<i64>)
    ensures
        seconds == rfc2822_seconds(text@),
{
    chrono::DateTime::parse_from_rfc2822(text).ok().map(|moment| moment.timestamp())
}

/// A list item tag opens at `at`, or another tag whose name starts as its
/// name does: a `<`, then `l` and `i` in either case.
pub open spec fn list_item_opens_at(html: Seq<char>, at: int) -> bool {
    &&& 0 <= at
    &&& at + 2 < html.len()
    &&& html[at] == '<'
    &&& (html[at + 1] == 'l' || html[at + 1] == 'L')
    &&& (html[at + 2] == 'i' || html[at + 2] == 'I')
}

/// A list item tag opens somewhere in the text.
pub open spec fn has_list_item(html: Seq<char>) -> bool {
    exists|at: int| list_item_opens_at(html, at)
}

/// `html2md::parse_html`, for a text in which no list item tag opens.
/// The crate loses its place in its output after a list item that stands in
/// no list, and then gives up; whether a list item stands in a list is for
/// the parser of the HTML to say, so every text with such a tag is left out.
/// Trusted: for the others the conversion comes back, and the text is the one
/// that the crate makes of this HTML.
#[verifier::external_body]
fn html_to_markdown(html: &str) -> (markdown: String)
    requires
        !has_list_item(html@),
    ensures
        markdown@ == html_as_markdown(html@),
{
    html2md::parse_html(html)
}

/// The text that is kept of a description: its conversion to Markdown, or
/// the description as it stands where a list item tag opens in it.
pub open spec fn description_text(html: Seq<char>) -> Seq<char> {
    if has_list_item(html) {
        html
    } else {
        html_as_markdown(html)
    }
}

/// Whether a list item tag opens somewhere in the text.
pub fn holds_list_item(html: &str) -> (found: bool)
    ensures
        found == has_list_item(html@),
{
    let chars = chars_of(html);
    if chars.len() < 3 {
        return false;
    }
    let last = chars.len() - 3;
    let mut at: usize = 0;
    loop
        invariant
            chars@ == html@,
            chars.len() >= 3,
            last == chars.len() - 3,
            at <= last,
            forall|k: int| 0 <= k < at ==> !list_item_opens_at(chars@, k),
        decreases last - at,
    {
        if chars[at] == '<' && (chars[at + 1] == 'l' || chars[at + 1] == 'L') && (chars[at + 2]
            == 'i' || chars[at + 2] == 'I') {
            assert(list_item_opens_at(chars@, at as int));
            return true;
        }
        if at == last {
            return false;
        }
        at += 1;
    }
}

/// Converts a description from HTML to Markdown. A description in which a
/// list item tag opens is kept as it stands.
pub fn convert_description(html: &str) -> (text: String)
    ensures
        text@ == description_text(html@),
{
    if holds_list_item(html) {
        String::from_str(html)
    } else {
        html_to_markdown(html)
    }
}

/// `chrono::Utc::now`, then `DateTime::timestamp`: the seconds since the
/// start of 1970 on this machine's clock. Nothing is claimed of the value.
/// chrono gives up on a clock that is set before 1970.
#[verifier::external_body]
pub(crate) fn unix_now() -> i64 {
    chrono::Utc::now().timestamp()
}

/// Whether an item published at `published_at` is taken in at time `now`:
/// its date lies no more than `MAX_AGE` back, or it has no date, which
/// nothing can be held against.
pub open spec fn is_fresh(published_at: Option<i64>, now: i64) -> bool {
    match published_at {
        Some(at) => at >= now - MAX_AGE,
        None => true,
    }
}

/// The item that a feed's entry becomes at time `now`, once its date has been
/// read as `published_at` and its description converted to `description`.
/// An entry without a link has no URL to be stored under and becomes none;
/// nor does one that is not fresh.
pub open spec fn item_from(
    feed: Seq<char>,
    title: Option<Seq<char>>,
    link: Option<Seq<char>>,
    published_at: Option<i64>,
    description: Option<Seq<char>>,
    now: i64,
) -> Option<ItemView> {
    match link {
        Some(url) if is_fresh(published_at, now) => Some(
            ItemView {
                read: false,
                starred: false,
                feed,
                retrieved_at: now,
                title,
                url,
                published_at,
                description,
            },
        ),
        _ => None,
    }
}

/// The date of an entry, read.
pub open spec fn entry_date(entry: EntryView) -> Option<i64> {
    match entry.pub_date {
        Some(text) => rfc2822_seconds(text),
        None => None,
    }
}

/// The text that is kept of the description of an entry.
pub open spec fn entry_text(entry: EntryView) -> Option<Seq<char>> {
    match entry.description {
        Some(html) => Some(description_text(html)),
        None => None,
    }
}

/// The item that an entry of `feed` becomes at time `now`, if any.
pub open spec fn item_of_entry(entry: EntryView, feed: Seq<char>, now: i64) -> Option<ItemView> {
    item_from(feed, entry.title, entry.link, entry_date(entry), entry_text(entry), now)
}

/// The items that the entries of `feed` become at time `now`, in the order of
/// the entries.
pub open spec fn items_of_entries(entries: Seq<EntryView>, feed: Seq<char>, now: i64) -> Seq<
    ItemView,
> {
    entries.filter_map(|entry: EntryView| item_of_entry(entry, feed, now))
}

/// What the entries offer is exactly what their entries become: each item
/// comes from an entry, and each entry that becomes an item is among them.
pub proof fn lemma_items_of_entries(entries: Seq<EntryView>, feed: Seq<char>, now: i64)
    ensures
        forall|k: int|
            0 <= k < items_of_entries(entries, feed, now).len() ==> exists|j: int|
                0 <= j < entries.len() && item_of_entry(#[trigger] entries[j], feed, now) == Some(
                    #[trigger] items_of_entries(entries, feed, now)[k],
                ),
        forall|j: int|
            0 <= j < entries.len() && item_of_entry(#[trigger] entries[j], feed, now).is_some()
                ==> exists|k: int|
                0 <= k < items_of_entries(entries, feed, now).len() && #[trigger] items_of_entries(
                    entries,
                    feed,
                    now,
                )[k] == item_of_entry(entries[j], feed, now).unwrap(),
    decreases entries.len(),
{
    let make = |entry: EntryView| item_of_entry(entry, feed, now);
    let items = items_of_entries(entries, feed, now);
    if entries.len() > 0 {
        let rest = entries.drop_last();
        let fewer = items_of_entries(rest, feed, now);
        lemma_items_of_entries(rest, feed, now);
        assert(items == match make(entries.last()) {
            Some(item) => fewer + seq![item],
            None => fewer,
        });
        assert forall|k: int| 0 <= k < items.len() implies exists|j: int|
            0 <= j < entries.len() && item_of_entry(#[trigger] entries[j], feed, now) == Some(
                #[trigger] items[k],
            ) by {
            if k < fewer.len() {
                assert(items[k] == fewer[k]);
                let j = choose|j: int|
                    0 <= j < rest.len() && item_of_entry(#[trigger] rest[j], feed, now) == Some(
                        fewer[k],
                    );
                assert(entries[j] == rest[j]);
            } else {
                assert(item_of_entry(entries[entries.len() - 1], feed, now) == Some(items[k]));
            }
        }
        assert forall|j: int|
            0 <= j < entries.len() && item_of_entry(
                #[trigger] entries[j],
                feed,
                now,
            ).is_some() implies exists|k: int|
            0 <= k < items.len() && #[trigger] items[k] == item_of_entry(
                entries[j],
                feed,
                now,
            ).unwrap() by {
            if j < rest.len() {
                assert(entries[j] == rest[j]);
                let k = choose|k: int|
                    0 <= k < fewer.len() && #[trigger] fewer[k] == item_of_entry(
                        rest[j],
                        feed,
                        now,
                    ).unwrap();
                assert(items[k] == fewer[k]);
            } else {
                assert(items[items.len() - 1] == item_of_entry(entries[j], feed, now).unwrap());
            }
        }
    }
}

/// The item of an entry that has a link: under the link, in the feed,
/// retrieved at `now`, unread and unstarred, with the title, the date and
/// the description of the entry.
pub open spec fn offered_item(entry: EntryView, feed: Seq<char>, now: i64) -> ItemView {
    ItemView {
        read: false,
        starred: false,
        feed,
        retrieved_at: now,
        title: entry.title,
        url: entry.link.unwrap(),
        published_at: entry_date(entry),
        description: entry_text(entry),
    }
}

/// An entry is offered to the table exactly when it has a link and its date,
/// if it has one that can be read, lies no more than `MAX_AGE` before `now`.
/// So no item offered is older, and every entry that is not, with a link, has
/// its item offered, whatever the age of the entries around it.
pub proof fn lemma_age_retention(entries: Seq<EntryView>, feed: Seq<char>, now: i64)
    ensures
        forall|k: int|
            0 <= k < items_of_entries(entries, feed, now).len() ==> is_fresh(
                (#[trigger] items_of_entries(entries, feed, now)[k]).published_at,
                now,
            ),
        forall|j: int|
            0 <= j < entries.len() && (#[trigger] entries[j]).link.is_some() && is_fresh(
                entry_date(entries[j]),
                now,
            ) ==> exists|k: int|
                0 <= k < items_of_entries(entries, feed, now).len() && #[trigger] items_of_entries(
                    entries,
                    feed,
                    now,
                )[k] == offered_item(entries[j], feed, now),
        forall|k: int|
            0 <= k < items_of_entries(entries, feed, now).len() ==> exists|j: int|
                0 <= j < entries.len() && (#[trigger] entries[j]).link.is_some() && is_fresh(
                    entry_date(entries[j]),
                    now,
                ) && #[trigger] items_of_entries(entries, feed, now)[k] == offered_item(
                    entries[j],
                    feed,
                    now,
                ),
{
    let items = items_of_entries(entries, feed, now);
    lemma_items_of_entries(entries, feed, now);
    assert forall|k: int| 0 <= k < items.len() implies is_fresh(
        (#[trigger] items[k]).published_at,
        now,
    ) && exists|j: int|
        0 <= j < entries.len() && (#[trigger] entries[j]).link.is_some() && is_fresh(
            entry_date(entries[j]),
            now,
        ) && items[k] == offered_item(entries[j], feed, now) by {
        let j = choose|j: int|
            0 <= j < entries.len() && item_of_entry(#[trigger] entries[j], feed, now) == Some(
                items[k],
            );
        assert(entries[j].link.is_some() && items[k] == offered_item(entries[j], feed, now));
    }
    assert forall|j: int|
        0 <= j < entries.len() && (#[trigger] entries[j]).link.is_some() && is_fresh(
            entry_date(entries[j]),
            now,
        ) implies exists|k: int|
        0 <= k < items.len() && #[trigger] items[k] == offered_item(entries[j], feed, now) by {
        assert(item_of_entry(entries[j], feed, now) == Some(offered_item(entries[j], feed, now)));
        let k = choose|k: int|
            0 <= k < items.len() && #[trigger] items[k] == item_of_entry(
                entries[j],
                feed,
                now,
            ).unwrap();
        assert(items[k] == offered_item(entries[j], feed, now));
    }
}

/// Whether an item published at `published_at` is taken in at time `now`.
pub fn fresh(published_at: Option<i64>, now: i64) -> (keep: bool)
    ensures
        keep == is_fresh(published_at, now),
{
    match published_at {
        Some(at) => {
            if now < i64::MIN + MAX_AGE {
                true
            } else {
                at >= now - MAX_AGE
            }
        },
        None => true,
    }
}

/// Makes the item of an entry whose date and description have been read.
pub fn make_item(
    feed_url: &str,
    title: Option<String>,
    link: Option<String>,
    published_at: Option<i64>,
    description: Option<String>,
    now: i64,
) -> (item: Option<Item>)
    ensures
        item.deep_view() == item_from(
            feed_url@,
            title.deep_view(),
            link.deep_view(),
            published_at,
            description.deep_view(),
            now,
        ),
{
    match link {
        Some(url) => {
            if fresh(published_at, now) {
                Some(
                    Item {
                        read: false,
                        starred: false,
                        feed: String::from_str(feed_url),
                        retrieved_at: now,
                        title,
                        url,
                        published_at,
                        description,
                    },
                )
            } else {
                None
            }
        },
        None => None,
    }
}

/// Makes the items of a feed's entries at time `now`.
pub fn items_from_entries(feed_url: &str, entries: Vec<Entry>, now: i64) -> (items: Vec<Item>)
    ensures
        items.deep_view() == items_of_entries(entries.deep_view(), feed_url@, now),
{
    let ghost all = entries.deep_view();
    let ghost make = |entry: EntryView| item_of_entry(entry, feed_url@, now);
    let mut entries = entries;
    let mut items: Vec<Item> = Vec::new();
    let mut i: usize = 0;
    while i < entries.len()
        invariant
            i <= entries.len(),
            entries.deep_view() == all,
            make == |entry: EntryView| item_of_entry(entry, feed_url@, now),
            items.deep_view() == all.take(i as int).filter_map(make),
        decreases entries.len() - i,
    {
        proof {
            all.lemma_filter_map_take_succ(make, i as int);
        }
        let entry = &entries[i];
        let published_at = match &entry.pub_date {
            Some(text) => parse_date(text.as_str()),
            None => None,
        };
        let description = match &entry.description {
            Some(html) => Some(convert_description(html.as_str())),
            None => None,
        };
        let ghost done = items.deep_view();
        match make_item(feed_url, entry.title.clone(), entry.link.clone(), published_at, description, now) {
            Some(item) => {
                items.push(item);
                assert(items.deep_view() =~= done + seq![item@]);
            },
            None => {},
        }
        i += 1;
    }
    assert(all.take(entries.len() as int) =~= all);
    items
}

/// Reads a feed document fetched at time `now` and makes its items.
pub fn get_items_at(feed_url: &str, content: &[u8], now: i64) -> (got: Result<Vec<Item>, FeedError>)
    ensures
        match got {
            Ok(items) => channel_entries(content@) matches Some(entries) && items.deep_view()
                == items_of_entries(entries, feed_url@, now),
            Err(why) => channel_entries(content@).is_none() && why == FeedError::Malformed,
        },
{
    match read_channel(content) {
        Ok(entries) => Ok(items_from_entries(feed_url, entries, now)),
        Err(_) => Err(FeedError::Malformed),
    }
}

/// Reads a feed document that has just been fetched and makes its items,
/// retrieved at the time that the clock shows once the document is read.
pub fn get_items(feed_url: &str, content: &[u8]) -> (got: Result<Vec<Item>, FeedError>)
    ensures
        match got {
            Ok(items) => channel_entries(content@).is_some() && exists|now: i64|
                items.deep_view() == #[trigger] items_of_entries(
                    channel_entries(content@).unwrap(),
                    feed_url@,
                    now,
                ),
            Err(why) => channel_entries(content@).is_none() && why == FeedError::Malformed,
        },
{
    match read_channel(content) {
        Ok(entries) => {
            let now = unix_now();
            let ghost read = entries.deep_view();
            let items = items_from_entries(feed_url, entries, now);
            assert(items.deep_view() == items_of_entries(
                channel_entries(content@).unwrap(),
                feed_url@,
                now,
            ));
            Ok(items)
        },
        Err(_) => Err(FeedError::Malformed),
    }
}

} // verus!
