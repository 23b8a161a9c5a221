//! Cards, the deck, a player's hand and the table.

use std::cmp::Ordering;

use rand::Rng;
use vstd::multiset::Multiset;
use vstd::prelude::*;

verus! {

broadcast use {
    vstd::seq_lib::group_to_multiset_ensures,
    vstd::multiset::group_multiset_axioms,
    vstd::seq_lib::lemma_multiset_commutative,
};

/// One of the four suits; only equality and trump membership matter.
#[derive(Debug, Copy, Clone, PartialEq, Eq, Structural, PartialOrd, Ord, Hash)]
pub enum Suit {
    Clubs,
    Diamonds,
    Hearts,
    Spades,
}

/// The nine ranks, from Six (lowest) to Ace (highest).
#[derive(Debug, Copy, Clone, PartialEq, Eq, Structural, PartialOrd, Ord, Hash)]
pub enum Value {
    Six,
    Seven,
    Eight,
    Nine,
    Ten,
    Jack,
    Queen,
    King,
    Ace,
}

/// A single card: a suit and a rank.
#[derive(Debug, Copy, Clone, PartialEq, Eq, Structural, PartialOrd, Ord, Hash)]
pub struct Card {
    pub suit: Suit,
    pub value: Value,
}

/// Number of cards a hand is refilled to, and the most slots the table holds.
pub const HAND_SIZE: usize = 6;

/// Number of cards in a full deck.
pub const DECK_SIZE: usize = 36;

/// Position of a suit in declaration order.
pub open spec fn suit_index(s: Suit) -> int {
    match s {
        Suit::Clubs => 0,
        Suit::Diamonds => 1,
        Suit::Hearts => 2,
        Suit::Spades => 3,
    }
}

/// Position of a rank, Six being 0 and Ace 8.
pub open spec fn value_index(v: Value) -> int {
    match v {
        Value::Six => 0,
        Value::Seven => 1,
        Value::Eight => 2,
        Value::Nine => 3,
        Value::Ten => 4,
        Value::Jack => 5,
        Value::Queen => 6,
        Value::King => 7,
        Value::Ace => 8,
    }
}

pub open spec fn suit_at(i: int) -> Suit {
    if i == 0 {
        Suit::Clubs
    } else if i == 1 {
        Suit::Diamonds
    } else if i == 2 {
        Suit::Hearts
    } else {
        Suit::Spades
    }
}

pub open spec fn value_at(i: int) -> Value {
    if i == 0 {
        Value::Six
    } else if i == 1 {
        Value::Seven
    } else if i == 2 {
        Value::Eight
    } else if i == 3 {
        Value::Nine
    } else if i == 4 {
        Value::Ten
    } else if i == 5 {
        Value::Jack
    } else if i == 6 {
        Value::Queen
    } else if i == 7 {
        Value::King
    } else {
        Value::Ace
    }
}

/// Position of a card in the sorted deck: suits in order, ranks within a suit.
/// This is also the order in which a hand is kept.
pub open spec fn card_index(c: Card) -> int {
    suit_index(c.suit) * 9 + value_index(c.value)
}

/// The card at position `i` of the sorted deck.
pub open spec fn card_at(i: int) -> Card {
    Card { suit: suit_at(i / 9), value: value_at(i % 9) }
}

/// The 36 cards in sorted order, each exactly once.
pub open spec fn full_deck() -> Seq<Card> {
    Seq::new(DECK_SIZE as nat, |i: int| card_at(i))
}

/// Whether `a` covers `b` when `trump` is the trump suit.
pub open spec fn beats_spec(a: Card, b: Card, trump: Suit) -> bool {
    if a.suit == b.suit {
        value_index(a.value) > value_index(b.value)
    } else {
        a.suit == trump
    }
}

/// Sort key under a trump suit: trumps above all other cards, then rank, then
/// suit as a tie-break between equal ranks of two plain suits.
pub open spec fn play_key(c: Card, trump: Suit) -> int {
    (if c.suit == trump { 36int } else { 0int }) + value_index(c.value) * 4 + suit_index(c.suit)
}

pub open spec fn ordering_of(a: int, b: int) -> Ordering {
    if a < b {
        Ordering::Less
    } else if a == b {
        Ordering::Equal
    } else {
        Ordering::Greater
    }
}

/// A shuffled stack of cards and the trump suit. Cards are drawn from the end;
/// the first card shows the trump and is drawn last.
#[derive(Debug, Clone)]
pub struct Deck {
    pub cards: Vec<Card>,
    pub trump: Suit,
}

/// The cards a player holds.
#[derive(Debug, Clone)]
pub struct Hand {
    pub cards: Vec<Card>,
}

/// The trick area: attack cards, each with its defense once covered.
#[derive(Debug, Clone)]
pub struct Table {
    pub cards: Vec<(Card, Option<Card>)>,
}

/// The cards of one table slot: the attack, then the defense if any.
pub open spec fn slot_cards(slot: (Card, Option<Card>)) -> Seq<Card> {
    match slot.1 {
        Some(d) => seq![slot.0, d],
        None => seq![slot.0],
    }
}

/// Every card on the table, slot by slot.
pub open spec fn table_cards(slots: Seq<(Card, Option<Card>)>) -> Seq<Card>
    decreases slots.len(),
{
    if slots.len() == 0 {
        Seq::empty()
    } else {
        table_cards(slots.drop_last()) + slot_cards(slots.last())
    }
}

/// Whether a rank lies anywhere on the table, on the attack or the defense side.
pub open spec fn rank_on_table(slots: Seq<(Card, Option<Card>)>, v: Value) -> bool {
    exists|i: int|
        0 <= i < slots.len() && (#[trigger] slots[i].0.value == v || (slots[i].1 is Some
            && slots[i].1->0.value == v))
}

/// A sequence of cards sorted by a key.
pub open spec fn sorted_by_key(s: Seq<Card>, key: spec_fn(Card) -> int) -> bool {
    forall|i: int, j: int| 0 <= i < j < s.len() ==> key(s[i]) <= key(s[j])
}

/// The order a hand is kept in.
pub open spec fn hand_order() -> spec_fn(Card) -> int {
    |c: Card| card_index(c)
}

/// The display order under a trump suit.
pub open spec fn trump_order(trump: Suit) -> spec_fn(Card) -> int {
    |c: Card| play_key(c, trump)
}

/// Whether a held card may be played onto the table: any card on an empty
/// table, a covering card against an open attack, and otherwise a rank that is
/// already on the table.
pub open spec fn acceptable(slots: Seq<(Card, Option<Card>)>, trump: Suit, c: Card) -> bool {
    if slots.len() == 0 {
        true
    } else if slots.last().1 is None {
        beats_spec(c, slots.last().0, trump)
    } else {
        rank_on_table(slots, c.value)
    }
}

pub open spec fn acceptable_pred(slots: Seq<(Card, Option<Card>)>, trump: Suit) -> spec_fn(
    Card,
) -> bool {
    |c: Card| acceptable(slots, trump, c)
}

/// Whether `r` lists the cards of `hand` that may be played onto the table,
/// each as often as the hand holds it, in the display order under `trump`.
pub open spec fn is_moves_result(
    hand: Seq<Card>,
    slots: Seq<(Card, Option<Card>)>,
    trump: Suit,
    r: Seq<Card>,
) -> bool {
    &&& r.to_multiset() == hand.filter(acceptable_pred(slots, trump)).to_multiset()
    &&& sorted_by_key(r, trump_order(trump))
}

/// How many cards a hand of `held` cards draws from a deck of `left` cards.
pub open spec fn draw_count(held: int, left: int) -> int {
    if held >= HAND_SIZE {
        0
    } else if HAND_SIZE - held <= left {
        HAND_SIZE - held
    } else {
        left
    }
}

impl Suit {
    /// Position of the suit in declaration order.
    pub fn index(self) -> (r: u8)
        ensures
            r as int == suit_index(self),
    {
        match self {
            Suit::Clubs => 0,
            Suit::Diamonds => 1,
            Suit::Hearts => 2,
            Suit::Spades => 3,
        }
    }
}

impl Value {
    /// Position of the rank, Six being 0 and Ace 8.
    pub fn index(self) -> (r: u8)
        ensures
            r as int == value_index(self),
    {
        match self {
            Value::Six => 0,
            Value::Seven => 1,
            Value::Eight => 2,
            Value::Nine => 3,
            Value::Ten => 4,
            Value::Jack => 5,
            Value::Queen => 6,
            Value::King => 7,
            Value::Ace => 8,
        }
    }
}

impl Card {
    /// Whether this card covers `other`: a higher rank of the same suit, or a
    /// trump against a card of another suit.
    pub fn beats(&self, other: &Card, trump: Suit) -> (r: bool)
        ensures
            r == beats_spec(*self, *other, trump),
    {
        if self.suit == other.suit {
            self.value.index() > other.value.index()
        } else {
            self.suit == trump
        }
    }

    /// Position of the card under `trump` in the display order.
    pub fn play_key(&self, trump: Suit) -> (r: u8)
        ensures
            r as int == play_key(*self, trump),
    {
        let base: u8 = if self.suit == trump { 36 } else { 0 };
        base + self.value.index() * 4 + self.suit.index()
    }

    /// Total order used to sort cards for display and for choosing moves:
    /// trumps above everything else, otherwise by rank, equal ranks of two
    /// plain suits by suit.
    pub fn compare(&self, other: &Card, trump: Suit) -> (r: Ordering)
        ensures
            r == ordering_of(play_key(*self, trump), play_key(*other, trump)),
            (r == Ordering::Equal) == (*self == *other),
    {
        proof {
            lemma_play_key_injective(*self, *other, trump);
        }
        let a = self.play_key(trump);
        let b = other.play_key(trump);
        if a < b {
            Ordering::Less
        } else if a == b {
            Ordering::Equal
        } else {
            Ordering::Greater
        }
    }
}


impl Table {
    /// Slots hold at most `HAND_SIZE` attacks, and only the last may be open.
    pub open spec fn wf(&self) -> bool {
        &&& self.cards@.len() <= HAND_SIZE
        &&& forall|i: int| 0 <= i < self.cards@.len() - 1 ==> (#[trigger] self.cards@[i]).1 is Some
    }

    /// An empty table.
    pub fn new() -> (t: Table)
        ensures
            t.cards@.len() == 0,
            t.wf(),
    {
        Table { cards: Vec::with_capacity(HAND_SIZE) }
    }

    /// Whether no further attack fits on the table.
    pub fn is_full(&self) -> (r: bool)
        ensures
            r == (self.cards@.len() >= HAND_SIZE),
    {
        self.cards.len() >= HAND_SIZE
    }

    /// The ranks present on the table, on either side, each once.
    pub fn values(&self) -> (r: Vec<Value>)
        ensures
            r@.no_duplicates(),
            forall|v: Value| r@.contains(v) <==> rank_on_table(self.cards@, v),
    {
        let mut result: Vec<Value> = Vec::new();
        let mut i: usize = 0;
        while i < self.cards.len()
            invariant
                i <= self.cards@.len(),
                result@.no_duplicates(),
                forall|v: Value|
                    result@.contains(v) <==> rank_on_table(self.cards@.subrange(0, i as int), v),
            decreases self.cards@.len() - i,
        {
            let (a, d) = self.cards[i];
            add_value(&mut result, a.value);
            match d {
                Some(c) => add_value(&mut result, c.value),
                None => {},
            }
            proof {
                let pre = self.cards@.subrange(0, i as int);
                let post = self.cards@.subrange(0, i + 1);
                assert forall|v: Value| rank_on_table(post, v) <==> (rank_on_table(pre, v) || post[i as int].0.value == v || (post[i as int].1 is Some && post[i as int].1->0.value == v)) by {
                    if rank_on_table(post, v) {
                        let k = choose|k: int| 0 <= k < post.len() && (#[trigger] post[k].0.value == v || (post[k].1 is Some && post[k].1->0.value == v));
                        if k < i {
                            assert(pre[k] == post[k]);
                        }
                    }
                    if rank_on_table(pre, v) {
                        let k = choose|k: int| 0 <= k < pre.len() && (#[trigger] pre[k].0.value == v || (pre[k].1 is Some && pre[k].1->0.value == v));
                        assert(pre[k] == post[k]);
                    }
                }
            }
            i += 1;
        }
        assert(self.cards@.subrange(0, i as int) =~= self.cards@);
        result
    }
}

/// Adds a rank to a list of distinct ranks unless it is already there.
fn add_value(vals: &mut Vec<Value>, v: Value)
    requires
        old(vals)@.no_duplicates(),
    ensures
        final(vals)@.no_duplicates(),
        forall|w: Value| final(vals)@.contains(w) <==> (old(vals)@.contains(w) || w == v),
{
    let mut i: usize = 0;
    while i < vals.len()
        invariant
            i <= vals@.len(),
            vals@ == old(vals)@,
            vals@.no_duplicates(),
            forall|k: int| 0 <= k < i ==> vals@[k] != v,
        decreases vals@.len() - i,
    {
        if vals[i] == v {
            return;
        }
        i += 1;
    }
    let ghost pre = vals@;
    vals.push(v);
    assert(vals@ == pre.push(v));
    assert(vals@.last() == v);
    assert forall|w: Value| vals@.contains(w) <==> (pre.contains(w) || w == v) by {
        if pre.contains(w) {
            let k = choose|k: int| 0 <= k < pre.len() && pre[k] == w;
            assert(vals@[k] == w);
        }
    }
}


/// Every card sits at its own index of the sorted deck.
pub proof fn lemma_card_index_at(i: int)
    requires
        0 <= i < DECK_SIZE,
    ensures
        card_index(card_at(i)) == i,
        0 <= card_index(card_at(i)) < DECK_SIZE,
{
    let q = i / 9;
    let r = i % 9;
    assert(i == q * 9 + r && 0 <= q < 4 && 0 <= r < 9) by (nonlinear_arith)
        requires 0 <= i < 36, q == i / 9, r == i % 9;
    assert(suit_index(suit_at(q)) == q);
    assert(value_index(value_at(r)) == r);
}

/// Every card lies in the sorted deck, at its index.
pub proof fn lemma_card_in_full_deck(c: Card)
    ensures
        0 <= card_index(c) < DECK_SIZE,
        full_deck()[card_index(c)] == c,
        full_deck().contains(c),
{
    let s = suit_index(c.suit);
    let v = value_index(c.value);
    let i = card_index(c);
    assert(0 <= i < 36 && i / 9 == s && i % 9 == v) by (nonlinear_arith)
        requires 0 <= s < 4, 0 <= v < 9, i == s * 9 + v;
    assert(suit_at(s) == c.suit);
    assert(value_at(v) == c.value);
}

/// The sorted deck holds each card once.
pub proof fn lemma_full_deck_unique()
    ensures
        full_deck().no_duplicates(),
        full_deck().len() == DECK_SIZE,
        forall|c: Card| #[trigger] full_deck().to_multiset().count(c) == 1,
{
    let d = full_deck();
    assert forall|i: int, j: int| 0 <= i < d.len() && 0 <= j < d.len() && i != j implies d[i]
        != d[j] by {
        lemma_card_index_at(i);
        lemma_card_index_at(j);
    }
    d.lemma_multiset_has_no_duplicates();
    assert forall|c: Card| #[trigger] d.to_multiset().count(c) == 1 by {
        lemma_card_in_full_deck(c);
        vstd::seq_lib::to_multiset_contains(d, c);
    }
}

fn suit_of_index(i: u8) -> (s: Suit)
    requires
        i < 4,
    ensures
        s == suit_at(i as int),
{
    if i == 0 {
        Suit::Clubs
    } else if i == 1 {
        Suit::Diamonds
    } else if i == 2 {
        Suit::Hearts
    } else {
        Suit::Spades
    }
}

fn value_of_index(i: u8) -> (v: Value)
    requires
        i < 9,
    ensures
        v == value_at(i as int),
{
    if i == 0 {
        Value::Six
    } else if i == 1 {
        Value::Seven
    } else if i == 2 {
        Value::Eight
    } else if i == 3 {
        Value::Nine
    } else if i == 4 {
        Value::Ten
    } else if i == 5 {
        Value::Jack
    } else if i == 6 {
        Value::Queen
    } else if i == 7 {
        Value::King
    } else {
        Value::Ace
    }
}

/// Relies on rand's `Rng::shuffle` over the thread-local generator, which only
/// swaps elements of the slice: the result is a permutation of the input.
#[verifier::external_body]
fn shuffle_cards(cards: &mut Vec<Card>)
    ensures
        final(cards)@.to_multiset() == old(cards)@.to_multiset(),
{
    rand::thread_rng().shuffle(cards.as_mut_slice());
}

impl Deck {
    /// No card twice, and the first card, while there is one, shows the trump.
    pub open spec fn wf(&self) -> bool {
        &&& self.cards@.no_duplicates()
        &&& self.cards@.len() > 0 ==> self.cards@[0].suit == self.trump
    }

    /// The 36 cards in sorted order: suit by suit, each from Six to Ace.
    pub fn new_sorted() -> (d: Deck)
        ensures
            d.cards@ == full_deck(),
            d.trump == Suit::Clubs,
            d.wf(),
    {
        let mut cards: Vec<Card> = Vec::with_capacity(DECK_SIZE);
        let mut i: u8 = 0;
        while i < 36
            invariant
                i <= 36,
                cards@ == full_deck().subrange(0, i as int),
            decreases 36 - i,
        {
            let c = Card { suit: suit_of_index(i / 9), value: value_of_index(i % 9) };
            cards.push(c);
            i += 1;
        }
        assert(cards@ == full_deck());
        proof {
            lemma_full_deck_unique();
        }
        let trump = cards[0].suit;
        Deck { cards: cards, trump: trump }
    }

    /// A deck in the given order, which must hold each of the 36 cards once;
    /// the trump is the suit of the first card.
    pub fn from_shuffled(cards: Vec<Card>) -> (d: Deck)
        requires
            cards@.to_multiset() == full_deck().to_multiset(),
        ensures
            d.cards@ == cards@,
            d.trump == cards@[0].suit,
            d.cards@.len() == DECK_SIZE,
            d.wf(),
    {
        proof {
            lemma_full_deck_unique();
            vstd::seq_lib::to_multiset_len(cards@);
            vstd::seq_lib::to_multiset_len(full_deck());
            assert forall|x: Card| cards@.to_multiset().contains(x) implies cards@.to_multiset().count(x) == 1 by {
                assert(full_deck().to_multiset().count(x) == 1);
            }
            cards@.lemma_multiset_has_no_duplicates_conv();
        }
        let trump = cards[0].suit;
        Deck { cards: cards, trump: trump }
    }

    /// A freshly shuffled deck of the 36 cards; the trump is the suit of the
    /// first card after shuffling.
    pub fn new() -> (d: Deck)
        ensures
            d.cards@.len() == DECK_SIZE,
            d.cards@.to_multiset() == full_deck().to_multiset(),
            d.cards@.no_duplicates(),
            d.trump == d.cards@[0].suit,
            d.wf(),
    {
        let mut cards = Deck::new_sorted().cards;
        shuffle_cards(&mut cards);
        Deck::from_shuffled(cards)
    }

    /// The card that shows the trump: the first one left, if any.
    pub fn trump_card(&self) -> (r: Option<&Card>)
        ensures
            match r {
                Some(c) => self.cards@.len() > 0 && *c == self.cards@[0],
                None => self.cards@.len() == 0,
            },
    {
        if self.cards.len() > 0 {
            Some(&self.cards[0])
        } else {
            None
        }
    }

    /// Removes and returns the last card.
    pub fn draw(&mut self) -> (c: Card)
        requires
            old(self).cards@.len() > 0,
        ensures
            c == old(self).cards@.last(),
            final(self).cards@ == old(self).cards@.drop_last(),
            final(self).trump == old(self).trump,
            old(self).wf() ==> final(self).wf(),
    {
        let c = self.cards.pop().unwrap();
        c
    }
}


/// The order used for sorting: a hand's own order without a trump, the display
/// order under a trump suit otherwise.
pub open spec fn order_of(trump: Option<Suit>) -> spec_fn(Card) -> int {
    match trump {
        Some(t) => trump_order(t),
        None => hand_order(),
    }
}

fn order_key(c: &Card, trump: Option<Suit>) -> (r: u8)
    ensures
        r as int == order_of(trump)(*c),
{
    match trump {
        Some(t) => c.play_key(t),
        None => c.suit.index() * 9 + c.value.index(),
    }
}

/// Sorts cards by insertion into a fresh vector.
fn sort_cards(v: &Vec<Card>, trump: Option<Suit>) -> (r: Vec<Card>)
    ensures
        r@.to_multiset() == v@.to_multiset(),
        sorted_by_key(r@, order_of(trump)),
{
    let ghost key = order_of(trump);
    let mut out: Vec<Card> = Vec::with_capacity(v.len());
    let mut i: usize = 0;
    proof {
        assert(v@.subrange(0, 0) == Seq::<Card>::empty());
        assert(out@ == Seq::<Card>::empty());
        assert(out@.to_multiset().len() == 0);
        assert(out@.to_multiset() =~= Multiset::empty());
    }
    while i < v.len()
        invariant
            i <= v@.len(),
            out@.to_multiset() == v@.subrange(0, i as int).to_multiset(),
            sorted_by_key(out@, key),
            key == order_of(trump),
        decreases v@.len() - i,
    {
        let x = v[i];
        let kx = order_key(&x, trump);
        let mut pos: usize = 0;
        while pos < out.len() && order_key(&out[pos], trump) <= kx
            invariant
                pos <= out@.len(),
                forall|k: int| 0 <= k < pos ==> key(out@[k]) <= key(x),
                kx as int == key(x),
                key == order_of(trump),
            decreases out@.len() - pos,
        {
            pos += 1;
        }
        let ghost pre = out@;
        out.insert(pos, x);
        proof {
            assert(out@ == pre.insert(pos as int, x));
            vstd::seq_lib::to_multiset_insert(pre, pos as int, x);
            assert(v@.subrange(0, i + 1) == v@.subrange(0, i as int).push(x));
            vstd::seq_lib::to_multiset_build(v@.subrange(0, i as int), x);
            assert forall|a: int, b: int| 0 <= a < b < out@.len() implies key(out@[a]) <= key(
                out@[b],
            ) by {
                if pos < pre.len() {
                    assert(key(x) < key(pre[pos as int]));
                }
            }
        }
        i += 1;
    }
    assert(v@.subrange(0, i as int) == v@);
    out
}

/// Whether `vals` holds `v`.
fn has_value(vals: &Vec<Value>, v: Value) -> (r: bool)
    ensures
        r == vals@.contains(v),
{
    let mut i: usize = 0;
    while i < vals.len()
        invariant
            i <= vals@.len(),
            forall|k: int| 0 <= k < i ==> vals@[k] != v,
        decreases vals@.len() - i,
    {
        if vals[i] == v {
            return true;
        }
        i += 1;
    }
    false
}

/// Adding a slot adds its cards at the end.
pub proof fn lemma_table_cards_push(slots: Seq<(Card, Option<Card>)>, slot: (Card, Option<Card>))
    ensures
        table_cards(slots.push(slot)) == table_cards(slots) + slot_cards(slot),
{
    assert(slots.push(slot).drop_last() == slots);
}

/// A sequence with the multiset of a filter holds exactly the elements that
/// pass the filter.
pub proof fn lemma_filter_members(s: Seq<Card>, pred: spec_fn(Card) -> bool, r: Seq<Card>)
    requires
        r.to_multiset() == s.filter(pred).to_multiset(),
    ensures
        forall|c: Card| r.contains(c) <==> s.contains(c) && pred(c),
{
    assert forall|c: Card| r.contains(c) <==> s.contains(c) && pred(c) by {
        vstd::seq_lib::to_multiset_contains(r, c);
        vstd::seq_lib::to_multiset_contains(s.filter(pred), c);
        if s.filter(pred).contains(c) {
            s.lemma_filter_contains_rev(pred, c);
        }
        if s.contains(c) && pred(c) {
            let i = choose|i: int| 0 <= i < s.len() && s[i] == c;
            s.lemma_filter_contains(pred, i);
        }
    }
}

impl Hand {
    /// No card is held twice.
    pub open spec fn wf(&self) -> bool {
        self.cards@.no_duplicates()
    }

    /// A hand dealt from the deck: up to `HAND_SIZE` cards, as many as it has.
    pub fn new(deck: &mut Deck) -> (h: Hand)
        ensures
            h.cards@.len() == draw_count(0, old(deck).cards@.len() as int),
            final(deck).cards@ == old(deck).cards@.subrange(
                0,
                old(deck).cards@.len() - h.cards@.len(),
            ),
            final(deck).trump == old(deck).trump,
            h.cards@.to_multiset() == old(deck).cards@.subrange(
                old(deck).cards@.len() - h.cards@.len(),
                old(deck).cards@.len() as int,
            ).to_multiset(),
            sorted_by_key(h.cards@, hand_order()),
            old(deck).wf() ==> final(deck).wf(),
    {
        let mut hand = Hand { cards: Vec::with_capacity(HAND_SIZE) };
        hand.draw_from(deck);
        proof {
            assert(Seq::<Card>::empty().to_multiset().len() == 0);
            assert(Seq::<Card>::empty().to_multiset() =~= Multiset::empty());
        }
        hand
    }

    /// Refills the hand up to `HAND_SIZE` cards from the end of the deck,
    /// stopping when the deck runs out, then puts the hand in order.
    pub fn draw_from(&mut self, deck: &mut Deck)
        ensures
            ({
                let n = draw_count(old(self).cards@.len() as int, old(deck).cards@.len() as int);
                let left = old(deck).cards@.len() - n;
                &&& final(deck).cards@ == old(deck).cards@.subrange(0, left)
                &&& final(self).cards@.len() == old(self).cards@.len() + n
                &&& final(self).cards@.to_multiset() == old(self).cards@.to_multiset().add(
                    old(deck).cards@.subrange(left, old(deck).cards@.len() as int).to_multiset(),
                )
            }),
            final(deck).trump == old(deck).trump,
            sorted_by_key(final(self).cards@, hand_order()),
            old(deck).wf() ==> final(deck).wf(),
    {
        let ghost d0 = deck.cards@;
        let ghost h0 = self.cards@;
        let ghost w = old(deck).wf();
        while self.cards.len() < HAND_SIZE && deck.cards.len() > 0
            invariant
                d0 == old(deck).cards@,
                h0 == old(self).cards@,
                w == old(deck).wf(),
                deck.cards@.len() <= d0.len(),
                deck.cards@ == d0.subrange(0, deck.cards@.len() as int),
                self.cards@.len() == h0.len() + (d0.len() - deck.cards@.len()),
                self.cards@.to_multiset() == h0.to_multiset().add(
                    d0.subrange(deck.cards@.len() as int, d0.len() as int).to_multiset(),
                ),
                deck.trump == old(deck).trump,
                w ==> deck.wf(),
                h0.len() >= HAND_SIZE ==> deck.cards@.len() == d0.len(),
                h0.len() < HAND_SIZE ==> self.cards@.len() <= HAND_SIZE,
            decreases deck.cards@.len(),
        {
            let ghost k = deck.cards@.len() as int;
            let ghost pre = self.cards@;
            let c = deck.draw();
            self.cards.push(c);
            proof {
                let rest = d0.subrange(k, d0.len() as int);
                assert(d0.subrange(k - 1, d0.len() as int) == seq![c] + rest);
                vstd::seq_lib::lemma_multiset_commutative(seq![c], rest);
                vstd::seq_lib::to_multiset_build(Seq::<Card>::empty(), c);
                assert(seq![c] == Seq::<Card>::empty().push(c));
                vstd::seq_lib::to_multiset_build(pre, c);
                assert(self.cards@.to_multiset() =~= h0.to_multiset().add(
                    d0.subrange(k - 1, d0.len() as int).to_multiset(),
                ));
            }
        }
        self.cards = sort_cards(&self.cards, None);
        proof {
            vstd::seq_lib::to_multiset_len(self.cards@);
        }
    }
    /// Removes the first copy of `card`, which the hand must hold.
    fn remove(&mut self, card: &Card)
        requires
            old(self).cards@.contains(*card),
        ensures
            exists|i: int|
                0 <= i < old(self).cards@.len() && old(self).cards@[i] == *card
                    && final(self).cards@ == old(self).cards@.remove(i),
            final(self).cards@.to_multiset() == old(self).cards@.to_multiset().remove(*card),
    {
        let mut i: usize = 0;
        while i < self.cards.len() && self.cards[i] != *card
            invariant
                i <= self.cards@.len(),
                self.cards@ == old(self).cards@,
                self.cards@.contains(*card),
                forall|k: int| 0 <= k < i ==> self.cards@[k] != *card,
            decreases self.cards@.len() - i,
        {
            i += 1;
        }
        let ghost pre = self.cards@;
        let _ = self.cards.remove(i);
        proof {
            vstd::seq_lib::to_multiset_remove(pre, i as int);
        }
    }

    /// Plays `card` as a new attack: it leaves the hand and opens a slot.
    pub fn attack_with(&mut self, card: Card, table: &mut Table)
        requires
            old(table).cards@.len() < HAND_SIZE,
            old(self).cards@.contains(card),
        ensures
            final(table).cards@ == old(table).cards@.push((card, None)),
            exists|i: int|
                0 <= i < old(self).cards@.len() && old(self).cards@[i] == card
                    && final(self).cards@ == old(self).cards@.remove(i),
            final(self).cards@.to_multiset() == old(self).cards@.to_multiset().remove(card),
    {
        self.remove(&card);
        table.cards.push((card, None));
    }

    /// Covers the open attack with `card`: it leaves the hand and closes the
    /// last slot.
    pub fn defend_with(&mut self, card: Card, table: &mut Table)
        requires
            old(table).cards@.len() > 0,
            old(table).cards@.last().1 is None,
            old(self).cards@.contains(card),
        ensures
            final(table).cards@ == old(table).cards@.drop_last().push(
                (old(table).cards@.last().0, Some(card)),
            ),
            exists|i: int|
                0 <= i < old(self).cards@.len() && old(self).cards@[i] == card
                    && final(self).cards@ == old(self).cards@.remove(i),
            final(self).cards@.to_multiset() == old(self).cards@.to_multiset().remove(card),
    {
        let last = table.cards.pop().unwrap();
        self.remove(&card);
        table.cards.push((last.0, Some(card)));
    }

    /// Picks up every card on the table, open attack included, leaves the
    /// table empty and puts the hand in order.
    pub fn take_from(&mut self, table: &mut Table)
        ensures
            final(table).cards@.len() == 0,
            final(self).cards@.to_multiset() == old(self).cards@.to_multiset().add(
                table_cards(old(table).cards@).to_multiset(),
            ),
            final(self).cards@.len() == old(self).cards@.len() + table_cards(old(table).cards@).len(),
            sorted_by_key(final(self).cards@, hand_order()),
    {
        let ghost slots = table.cards@;
        let ghost h0 = self.cards@;
        let mut i: usize = 0;
        proof {
            assert(slots.subrange(0, 0) == Seq::<(Card, Option<Card>)>::empty());
            assert(table_cards(slots.subrange(0, 0)).to_multiset().len() == 0);
            assert(h0.to_multiset() =~= h0.to_multiset().add(
                table_cards(slots.subrange(0, 0)).to_multiset()));
        }
        while i < table.cards.len()
            invariant
                i <= slots.len(),
                table.cards@ == slots,
                slots == old(table).cards@,
                h0 == old(self).cards@,
                self.cards@.to_multiset() == h0.to_multiset().add(
                    table_cards(slots.subrange(0, i as int)).to_multiset(),
                ),
                self.cards@.len() == h0.len() + table_cards(slots.subrange(0, i as int)).len(),
            decreases slots.len() - i,
        {
            let (a, d) = table.cards[i];
            let ghost pre = self.cards@;
            self.cards.push(a);
            match d {
                Some(c) => self.cards.push(c),
                None => {},
            }
            proof {
                assert(slots.subrange(0, i + 1) == slots.subrange(0, i as int).push(slots[i as int]));
                let sc = slot_cards(slots[i as int]);
                let tc = table_cards(slots.subrange(0, i as int));
                assert(self.cards@ == pre + sc);
                lemma_table_cards_push(slots.subrange(0, i as int), slots[i as int]);
                assert(table_cards(slots.subrange(0, i + 1)) == tc + sc);
            }
            i += 1;
        }
        table.cards.clear();
        assert(slots.subrange(0, i as int) == slots);
        let ghost unsorted = self.cards@;
        self.cards = sort_cards(&self.cards, None);
        assert(self.cards@.to_multiset().len() == unsorted.to_multiset().len());
    }

    /// The cards of this hand that may be played onto `table`, sorted by
    /// `Card::compare`: the whole hand on an empty table, the cards that beat
    /// an open attack, or else the cards whose rank is already on the table.
    pub fn acceptable_moves(&self, table: &Table, trump: Suit) -> (r: Vec<Card>)
        ensures
            is_moves_result(self.cards@, table.cards@, trump, r@),
            self.wf() ==> r@.no_duplicates(),
            forall|c: Card|
                r@.contains(c) <==> self.cards@.contains(c) && acceptable(table.cards@, trump, c),
    {
        let ghost pred = acceptable_pred(table.cards@, trump);
        let n = table.cards.len();
        let vals = table.values();
        let mut result: Vec<Card> = Vec::new();
        let mut i: usize = 0;
        proof {
            assert(self.cards@.subrange(0, 0) == Seq::<Card>::empty());
            reveal_with_fuel(Seq::filter, 1);
            assert(result@ == self.cards@.subrange(0, 0).filter(pred));
        }
        while i < self.cards.len()
            invariant
                i <= self.cards@.len(),
                n == table.cards@.len(),
                pred == acceptable_pred(table.cards@, trump),
                forall|v: Value| vals@.contains(v) <==> rank_on_table(table.cards@, v),
                result@ == self.cards@.subrange(0, i as int).filter(pred),
            decreases self.cards@.len() - i,
        {
            let c = self.cards[i];
            let ok = if n == 0 {
                true
            } else {
                let last = &table.cards[n - 1];
                match last.1 {
                    None => c.beats(&last.0, trump),
                    Some(_) => has_value(&vals, c.value),
                }
            };
            assert(ok == pred(c));
            if ok {
                result.push(c);
            }
            proof {
                assert(self.cards@.subrange(0, i + 1) == self.cards@.subrange(0, i as int).push(c));
                self.cards@.subrange(0, i as int).lemma_filter_push(c, pred);
            }
            i += 1;
        }
        assert(self.cards@.subrange(0, i as int) == self.cards@);
        let r = sort_cards(&result, Some(trump));
        proof {
            lemma_filter_members(self.cards@, pred, r@);
            if self.wf() {
                lemma_filter_unique(self.cards@, pred, r@);
            }
        }
        r
    }
}


/// No card beats itself; within a suit the higher rank beats the lower; a
/// trump beats every card of another suit.
pub proof fn lemma_beats_laws(a: Card, b: Card, trump: Suit)
    ensures
        !beats_spec(a, a, trump),
        a.suit == b.suit ==> (beats_spec(a, b, trump) <==> value_index(a.value) > value_index(
            b.value,
        )),
        a.suit == trump && b.suit != trump ==> beats_spec(a, b, trump),
        a.suit == trump && b.suit != trump ==> !beats_spec(b, a, trump),
{
}

/// On an empty table the acceptable moves are the whole hand, with every
/// card of another suit before every trump and those in rank order.
pub proof fn lemma_moves_on_empty_table(hand: Seq<Card>, trump: Suit, r: Seq<Card>)
    requires
        is_moves_result(hand, Seq::empty(), trump, r),
    ensures
        r.to_multiset() == hand.to_multiset(),
        r.len() == hand.len(),
        forall|i: int, j: int|
            0 <= i < j < r.len() && #[trigger] r[i].suit == trump ==> #[trigger] r[j].suit == trump,
        forall|i: int, j: int|
            0 <= i < j < r.len() && r[i].suit != trump && r[j].suit != trump ==> value_index(
                r[i].value,
            ) <= value_index(r[j].value),
{
    let pred = acceptable_pred(Seq::<(Card, Option<Card>)>::empty(), trump);
    assert(hand.filter(pred) == hand) by {
        assert forall|c: Card| #[trigger] pred(c) by {}
        lemma_filter_all(hand, pred);
    }
    vstd::seq_lib::to_multiset_len(r);
    vstd::seq_lib::to_multiset_len(hand);
    assert forall|i: int, j: int|
        0 <= i < j < r.len() && #[trigger] r[i].suit == trump implies #[trigger] r[j].suit == trump by {
        assert(trump_order(trump)(r[i]) <= trump_order(trump)(r[j]));
    }
    assert forall|i: int, j: int|
        0 <= i < j < r.len() && r[i].suit != trump && r[j].suit != trump implies value_index(
        r[i].value,
    ) <= value_index(r[j].value) by {
        assert(trump_order(trump)(r[i]) <= trump_order(trump)(r[j]));
    }
}

/// Distinct cards have distinct positions in the display order.
pub proof fn lemma_play_key_injective(a: Card, b: Card, trump: Suit)
    ensures
        play_key(a, trump) == play_key(b, trump) <==> a == b,
{
}

/// Filtering never raises how often an element occurs.
proof fn lemma_filter_count(s: Seq<Card>, pred: spec_fn(Card) -> bool, x: Card)
    ensures
        s.filter(pred).to_multiset().count(x) <= s.to_multiset().count(x),
    decreases s.len(),
{
    reveal_with_fuel(Seq::filter, 1);
    if s.len() > 0 {
        let init = s.drop_last();
        lemma_filter_count(init, pred, x);
        assert(init.push(s.last()) == s);
        init.lemma_filter_push(s.last(), pred);
    }
}

/// A sequence with the multiset of a filter of a sequence without
/// duplicates has no duplicates either.
proof fn lemma_filter_unique(s: Seq<Card>, pred: spec_fn(Card) -> bool, r: Seq<Card>)
    requires
        s.no_duplicates(),
        r.to_multiset() == s.filter(pred).to_multiset(),
    ensures
        r.no_duplicates(),
{
    s.lemma_multiset_has_no_duplicates();
    assert forall|x: Card| r.to_multiset().contains(x) implies r.to_multiset().count(x) == 1 by {
        lemma_filter_count(s, pred, x);
    }
    r.lemma_multiset_has_no_duplicates_conv();
}

/// Filtering by a predicate that every element passes keeps the sequence.
proof fn lemma_filter_all(s: Seq<Card>, pred: spec_fn(Card) -> bool)
    requires
        forall|c: Card| #[trigger] pred(c),
    ensures
        s.filter(pred) == s,
    decreases s.len(),
{
    reveal_with_fuel(Seq::filter, 1);
    if s.len() > 0 {
        lemma_filter_all(s.drop_last(), pred);
        assert(s.drop_last().push(s.last()) == s);
        s.drop_last().lemma_filter_push(s.last(), pred);
    }
}

/// Against an open attack the acceptable moves are exactly the held cards
/// that beat it, and none when no held card does.
pub proof fn lemma_moves_against_open_attack(
    hand: Seq<Card>,
    slots: Seq<(Card, Option<Card>)>,
    trump: Suit,
    r: Seq<Card>,
)
    requires
        is_moves_result(hand, slots, trump, r),
        slots.len() > 0,
        slots.last().1 is None,
    ensures
        forall|c: Card| r.contains(c) <==> hand.contains(c) && beats_spec(c, slots.last().0, trump),
        (forall|i: int| 0 <= i < hand.len() ==> !beats_spec(#[trigger] hand[i], slots.last().0, trump))
            ==> r.len() == 0,
{
    lemma_filter_members(hand, acceptable_pred(slots, trump), r);
    if (forall|i: int| 0 <= i < hand.len() ==> !beats_spec(#[trigger] hand[i], slots.last().0, trump)) && r.len() > 0 {
        assert(r.contains(r[0]));
    }
}

/// After covered slots, the acceptable moves are exactly the held cards whose
/// rank is already on the table.
pub proof fn lemma_moves_follow_up(
    hand: Seq<Card>,
    slots: Seq<(Card, Option<Card>)>,
    trump: Suit,
    r: Seq<Card>,
)
    requires
        is_moves_result(hand, slots, trump, r),
        slots.len() > 0,
        slots.last().1 is Some,
    ensures
        forall|c: Card| r.contains(c) <==> hand.contains(c) && rank_on_table(slots, c.value),
{
    lemma_filter_members(hand, acceptable_pred(slots, trump), r);
}


/// One hand attacks with `a` on an empty table, another covers it with `d`,
/// and the table goes onto a pile: the table's cards are exactly `a` then
/// `d`, the pile grows by exactly those two, and taken together the two
/// hands and the pile hold the same cards as before.
pub proof fn lemma_round_trip(
    attacker_before: Seq<Card>,
    attacker_after: Seq<Card>,
    defender_before: Seq<Card>,
    defender_after: Seq<Card>,
    t1: Seq<(Card, Option<Card>)>,
    t2: Seq<(Card, Option<Card>)>,
    pile_before: Seq<Card>,
    pile_after: Seq<Card>,
    a: Card,
    d: Card,
)
    requires
        attacker_before.contains(a),
        defender_before.contains(d),
        t1 == Seq::<(Card, Option<Card>)>::empty().push((a, None)),
        attacker_after.to_multiset() == attacker_before.to_multiset().remove(a),
        t2 == t1.drop_last().push((t1.last().0, Some(d))),
        defender_after.to_multiset() == defender_before.to_multiset().remove(d),
        pile_after == pile_before + table_cards(t2),
    ensures
        table_cards(t2) == seq![a, d],
        pile_after == pile_before + seq![a, d],
        attacker_after.to_multiset().add(defender_after.to_multiset()).add(pile_after.to_multiset())
            == attacker_before.to_multiset().add(defender_before.to_multiset()).add(
            pile_before.to_multiset(),
        ),
{
    let empty = Seq::<(Card, Option<Card>)>::empty();
    assert(t2 == empty.push((a, Some(d))));
    lemma_table_cards_push(empty, (a, Some(d)));
    assert(table_cards(empty) == Seq::<Card>::empty());
    assert(table_cards(t2) == seq![a, d]);
    assert(seq![a, d] == Seq::<Card>::empty().push(a).push(d));
    vstd::seq_lib::to_multiset_contains(attacker_before, a);
    vstd::seq_lib::to_multiset_contains(defender_before, d);
    assert(attacker_after.to_multiset().add(defender_after.to_multiset()).add(pile_after.to_multiset())
        =~= attacker_before.to_multiset().add(defender_before.to_multiset()).add(
        pile_before.to_multiset(),
    ));
}

} // verus!
