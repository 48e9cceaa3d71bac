use vstd::prelude::*;
use vstd::utf8::encode_utf8;
use crate::error::ElfError;
use crate::layout::name_offset;
use crate::layout::name_table;
use crate::layout::symbol_table;
use crate::io::has_magic;
use crate::object::Class;
use crate::object::Endianness;
use crate::object::Header;
use crate::object::ObjectView;
use crate::section::SectionHeader;
use crate::section::SectionView;
use crate::segment::ProgramHeader;
use crate::util::lemma_field_lengths;
use crate::parse::first_failure;
use crate::parse::inserted_all;
use crate::parse::names_at;
use crate::parse::section_name_offsets;
use crate::parse::successes;
use crate::parse::symbol_name_offsets;
use crate::tables::values_of;
use crate::symbol::Symbol;
use crate::tables::distinct_names;
use crate::tables::find_name;
use crate::tables::lemma_find_name;
use crate::tables::names_of;
use crate::theorems::lemma_name_resolves;
use crate::util::overlay;

verus! {

/// `image` after the first `count` of `patches` were written, each at its
/// place.
pub open spec fn patched(
    image: Seq<u8>,
    places: Seq<int>,
    patches: Seq<Seq<u8>>,
    count: int,
) -> Seq<
    u8,
>
    decreases count,
{
    if count <= 0 {
        image
    } else {
        overlay(
            patched(image, places, patches, count - 1),
            places[count - 1] as nat,
            patches[count - 1],
        )
    }
}

/// Whether the first `count` patches stand one behind the other, none
/// before `floor` and none beyond `ceiling`.
pub open spec fn in_order(
    places: Seq<int>,
    patches: Seq<Seq<u8>>,
    count: int,
    floor: int,
    ceiling: int,
) -> bool {
    &&& forall|i: int|
        0 <= i < count ==> floor <= #[trigger] places[i] && places[i] + patches[i].len() <= ceiling
    &&& forall|i: int, j: int|
        0 <= i < j < count ==> #[trigger] places[i] + patches[i].len() <= #[trigger] places[j]
}

/// Patches that stand one behind the other do not disturb each other, nor
/// what stands before them: the image keeps its bytes below the floor, and
/// holds every patch at its place.
pub proof fn lemma_patched(
    image: Seq<u8>,
    places: Seq<int>,
    patches: Seq<Seq<u8>>,
    count: int,
    floor: int,
    ceiling: int,
)
    requires
        0 <= count <= places.len(),
        places.len() == patches.len(),
        0 <= floor,
        in_order(places, patches, count, floor, ceiling),
    ensures
        patched(image, places, patches, count).len() >= image.len(),
        forall|k: int|
            0 <= k < floor && k < image.len() ==> #[trigger] patched(
                image,
                places,
                patches,
                count,
            )[k] == image[k],
        forall|i: int|
            0 <= i < count ==> places[i] + patches[i].len() <= patched(
                image,
                places,
                patches,
                count,
            ).len() && #[trigger] patched(image, places, patches, count).subrange(
                places[i],
                places[i] + patches[i].len(),
            ) == patches[i],
    decreases count,
{
    if count > 0 {
        let before = patched(image, places, patches, count - 1);
        let after = patched(image, places, patches, count);
        lemma_patched(image, places, patches, count - 1, floor, ceiling);
        assert forall|i: int| 0 <= i < count implies places[i] + patches[i].len() <= after.len()
            && #[trigger] after.subrange(places[i], places[i] + patches[i].len())
            == patches[i] by {
            if i < count - 1 {
                assert(places[i] + patches[i].len() <= places[count - 1]);
                assert(before.subrange(places[i], places[i] + patches[i].len())
                    == patches[i]);
                assert forall|k: int| 0 <= k < patches[i].len() implies after[places[i] + k]
                    == patches[i][k] by {
                    assert(before.subrange(places[i], places[i] + patches[i].len())[k]
                        == before[places[i] + k]);
                }
            }
            assert(after.subrange(places[i], places[i] + patches[i].len())
                =~= patches[i]);
        }
    }
}

/// The names and the values, pair by pair.
pub open spec fn zipped<V>(names: Seq<Seq<char>>, values: Seq<V>) -> Seq<(Seq<char>, V)> {
    Seq::new(names.len(), |i: int| (names[i], values[i]))
}

/// Where no name comes twice, storing the values under their names keeps
/// them all, in their order.
pub proof fn lemma_inserted_all_distinct<V>(names: Seq<Seq<char>>, values: Seq<V>)
    requires
        names.len() == values.len(),
        distinct_names(names),
    ensures
        inserted_all(names, values) == zipped(names, values),
    decreases names.len(),
{
    if names.len() > 0 {
        let front = names.drop_last();
        lemma_inserted_all_distinct(front, values.drop_last());
        let before = zipped(front, values.drop_last());
        assert(names_of(before) =~= front);
        lemma_find_name(front, names.last());
        assert(find_name(front, names.last()) is None) by {
            if find_name(front, names.last()) is Some {
                let i = find_name(front, names.last()).unwrap();
                assert(names[i] == names[names.len() - 1]);
            }
        }
        assert(inserted_all(names, values) =~= zipped(names, values));
    } else {
        assert(inserted_all(names, values) =~= zipped(names, values));
    }
}

/// Where every name was read there is no failure.
pub proof fn lemma_no_failure(results: Seq<Result<Seq<char>, ElfError>>)
    requires
        forall|k: int| 0 <= k < results.len() ==> (#[trigger] results[k]) is Ok,
    ensures
        first_failure(results) is None,
    decreases results.len(),
{
    if results.len() > 0 {
        lemma_no_failure(results.drop_last());
    }
}

/// The names that stand at their own offsets in their string table are all
/// read back, as long as none holds a zero byte and the table is no longer
/// than a name offset can reach.
pub proof fn lemma_names_read_back(names: Seq<Seq<char>>, offsets: Seq<u32>)
    requires
        offsets.len() == names.len(),
        name_table(names).len() <= u32::MAX,
        forall|i: int| 0 <= i < names.len()
            ==> #[trigger] offsets[i] == name_offset(names, i) as u32,
        forall|i: int| 0 <= i < names.len() ==> !encode_utf8(#[trigger] names[i]).contains(0u8),
    ensures
        first_failure(names_at(name_table(names), offsets)) is None,
        successes(names_at(name_table(names), offsets)) == names,
{
    let results = names_at(name_table(names), offsets);
    assert forall|k: int| 0 <= k < results.len() implies (#[trigger] results[k]) == Ok::<
        Seq<char>,
        ElfError,
    >(names[k]) by {
        lemma_name_resolves(names, k);
        crate::theorems::lemma_name_table_entry(names, k);
    }
    lemma_no_failure(results);
    assert(successes(results) =~= names);
}

/// The symbol table holds the record of symbol `k` at `k` times the record
/// size.
pub proof fn lemma_symbol_table_entry(
    symbols: Seq<Symbol>,
    class: Class,
    endian: Endianness,
    k: int,
)
    requires
        0 <= k < symbols.len(),
    ensures
        symbol_table(symbols, class, endian).len() == symbols.len() * Symbol::encoded_len(class),
        (k + 1) * Symbol::encoded_len(class) <= symbol_table(symbols, class, endian).len(),
        symbol_table(symbols, class, endian).subrange(
            k * Symbol::encoded_len(class),
            (k + 1) * Symbol::encoded_len(class),
        ) == symbols[k].encoding(class, endian),
    decreases symbols.len(),
{
    let size = Symbol::encoded_len(class) as int;
    let whole = symbol_table(symbols, class, endian);
    let front = symbols.drop_last();
    crate::layout::lemma_symbol_table_len(symbols, class, endian);
    crate::layout::lemma_symbol_table_len(front, class, endian);
    crate::util::lemma_field_lengths(endian);
    assert(symbols.last().encoding(class, endian).len() == size);
    assert((k + 1) * size == k * size + size) by (nonlinear_arith);
    assert((k + 1) * size <= symbols.len() * size) by (nonlinear_arith)
        requires
            k + 1 <= symbols.len(),
            size >= 0,
    ;
    assert(front.len() * size == symbols.len() * size - size) by (nonlinear_arith)
        requires
            front.len() == symbols.len() - 1,
    ;
    if k < symbols.len() - 1 {
        lemma_symbol_table_entry(front, class, endian, k);
        assert(whole.subrange(k * size, (k + 1) * size) =~= symbol_table(
            front,
            class,
            endian,
        ).subrange(k * size, (k + 1) * size));
    } else {
        assert(k * size == front.len() * size);
        assert(whole.subrange(k * size, (k + 1) * size) =~= symbols[k].encoding(class, endian));
    }
}


/// What two images share below a bound they share stretch by stretch.
pub proof fn lemma_kept_stretch(before: Seq<u8>, after: Seq<u8>, floor: int, at: int, len: int)
    requires
        0 <= at,
        0 <= len,
        at + len <= floor,
        at + len <= before.len(),
        before.len() <= after.len(),
        forall|k: int| 0 <= k < floor && k < before.len() ==> #[trigger] after[k] == before[k],
    ensures
        after.subrange(at, at + len) == before.subrange(at, at + len),
{
    assert(after.subrange(at, at + len) =~= before.subrange(at, at + len));
}

impl ObjectView {
    /// Whether an image of the object can be read back as it is: the object
    /// is laid out and the layout changes nothing more; the header starts
    /// with the magic bytes and names the true sizes of the file header and
    /// of a program header, with the program header table right behind the
    /// file header; the counts fit their fields and every record fits the
    /// class; every section says the length of its body as its size; no
    /// name comes twice or holds a zero byte, and no string table outgrows a
    /// name offset; and the symbol table names the true record size.
    #[verifier::opaque]
    pub open spec fn well_formed(&self) -> bool {
        let class = self.header.e_ident.ei_class;
        &&& self.layout_error() is None
        &&& self.laid_out() == *self
        &&& has_magic(self.header.e_ident.ei_magic@, 0)
        &&& self.header.fits()
        &&& self.header.e_ehsize == Header::encoded_len(class)
        &&& self.header.e_phentsize == ProgramHeader::encoded_len(class)
        &&& self.header.e_phoff == self.header.e_ehsize
        &&& self.segments.len() <= u16::MAX
        &&& self.sections.len() <= u16::MAX
        &&& forall|i: int|
            0 <= i < self.segments.len() ==> (#[trigger] self.segments[i]).header.fits(class)
        &&& forall|i: int|
            0 <= i < self.sections.len() ==> (#[trigger] self.sections[i]).1.header.fits(class)
                && self.sections[i].1.header.sh_size == self.sections[i].1.body.len()
        &&& forall|i: int|
            0 <= i < self.symbols.len() ==> (#[trigger] self.symbols[i]).1.fits(class)
        &&& distinct_names(self.section_names())
        &&& distinct_names(self.symbol_names())
        &&& forall|i: int|
            0 <= i < self.sections.len() ==> !encode_utf8((#[trigger] self.sections[i]).0).contains(
                0u8,
            )
        &&& forall|i: int|
            0 <= i < self.symbols.len() ==> !encode_utf8((#[trigger] self.symbols[i]).0).contains(
                0u8,
            )
        &&& name_table(self.section_names()).len() <= u32::MAX
        &&& name_table(self.symbol_names()).len() <= u32::MAX
        &&& self.sections[find_name(
            self.section_names(),
            ".symtab"@,
        ).unwrap()].1.header.sh_entsize == Symbol::encoded_len(class)
    }

    /// What well-formedness says of the records and the names.
    pub proof fn lemma_well_formed(self)
        requires
            self.well_formed(),
        ensures
            self.layout_error() is None,
            has_magic(self.header.e_ident.ei_magic@, 0),
            self.header.fits(),
            self.header.e_ehsize == Header::encoded_len(self.header.e_ident.ei_class),
            self.header.e_phentsize == ProgramHeader::encoded_len(self.header.e_ident.ei_class),
            self.header.e_phoff == self.header.e_ehsize,
            self.segments.len() <= u16::MAX,
            self.sections.len() <= u16::MAX,
            forall|i: int|
                0 <= i < self.segments.len() ==> (#[trigger] self.segments[i]).header.fits(
                    self.header.e_ident.ei_class,
                ),
            forall|i: int|
                0 <= i < self.sections.len() ==> (#[trigger] self.sections[i]).1.header.fits(
                    self.header.e_ident.ei_class,
                ) && self.sections[i].1.header.sh_size == self.sections[i].1.body.len(),
            forall|i: int|
                0 <= i < self.symbols.len() ==> (#[trigger] self.symbols[i]).1.fits(
                    self.header.e_ident.ei_class,
                ),
            distinct_names(self.section_names()),
            distinct_names(self.symbol_names()),
            forall|i: int|
                0 <= i < self.sections.len() ==> !encode_utf8(
                    (#[trigger] self.sections[i]).0,
                ).contains(0u8),
            forall|i: int|
                0 <= i < self.symbols.len() ==> !encode_utf8(
                    (#[trigger] self.symbols[i]).0,
                ).contains(0u8),
            name_table(self.section_names()).len() <= u32::MAX,
            name_table(self.symbol_names()).len() <= u32::MAX,
            self.sections[find_name(
                self.section_names(),
                ".symtab"@,
            ).unwrap()].1.header.sh_entsize == Symbol::encoded_len(self.header.e_ident.ei_class),
    {
        reveal(ObjectView::well_formed);
    }

    /// Where every entry of the program header table is written.
    pub open spec fn segment_places(&self) -> Seq<int> {
        Seq::new(self.segments.len(), |k: int| Self::segment_at(self.header, k))
    }

    /// What is written for every entry of the program header table.
    pub open spec fn segment_patches(&self) -> Seq<Seq<u8>> {
        Seq::new(
            self.segments.len(),
            |k: int|
                self.segments[k].header.encoding(
                    self.header.e_ident.ei_class,
                    self.header.e_ident.ei_data,
                ),
        )
    }

    /// Where every section body is written.
    pub open spec fn body_places(&self) -> Seq<int> {
        Seq::new(self.sections.len(), |k: int| self.sections[k].1.header.sh_offset as int)
    }

    /// What is written for every section body.
    pub open spec fn body_patches(&self) -> Seq<Seq<u8>> {
        Seq::new(self.sections.len(), |k: int| self.sections[k].1.body)
    }

    /// Where every entry of the section header table is written.
    pub open spec fn header_places(&self) -> Seq<int> {
        Seq::new(self.sections.len(), |k: int| Self::section_header_at(self.header, k))
    }

    /// What is written for every entry of the section header table.
    pub open spec fn header_patches(&self) -> Seq<Seq<u8>> {
        Seq::new(
            self.sections.len(),
            |k: int|
                self.sections[k].1.header.encoding(
                    self.header.e_ident.ei_class,
                    self.header.e_ident.ei_data,
                ),
        )
    }

    /// The three tables are written patch by patch.
    pub proof fn lemma_written_patches(self, image: Seq<u8>, count: int)
        requires
            0 <= count,
        ensures
            count <= self.segments.len() ==> self.with_segments(image, count) == patched(
                image,
                self.segment_places(),
                self.segment_patches(),
                count,
            ),
            count <= self.sections.len() ==> self.with_bodies(image, count) == patched(
                image,
                self.body_places(),
                self.body_patches(),
                count,
            ),
            count <= self.sections.len() ==> self.with_section_headers(image, count) == patched(
                image,
                self.header_places(),
                self.header_patches(),
                count,
            ),
        decreases count,
    {
        if count > 0 {
            self.lemma_written_patches(image, count - 1);
        }
    }

    /// The parts of a well-formed object stand one behind the other: the
    /// program headers between the file header and the sections, the
    /// section bodies between them and the section header table, and the
    /// section headers behind that.
    pub proof fn lemma_segment_places(self)
        requires
            self.well_formed(),
        ensures
            self.laid_out_start() == Header::encoded_len(self.header.e_ident.ei_class)
                + self.segments.len() * ProgramHeader::encoded_len(self.header.e_ident.ei_class),
            in_order(
                self.segment_places(),
                self.segment_patches(),
                self.segments.len() as int,
                Header::encoded_len(self.header.e_ident.ei_class) as int,
                self.laid_out_start(),
            ),
            forall|i: int|
                0 <= i < self.segments.len() ==> (#[trigger] self.segment_patches()[i]).len()
                    == ProgramHeader::encoded_len(self.header.e_ident.ei_class),
    {
        let class = self.header.e_ident.ei_class;
        self.lemma_well_formed();
        reveal(ObjectView::well_formed);
        let endian = self.header.e_ident.ei_data;
        let head = Header::encoded_len(class) as int;
        let ph_len = ProgramHeader::encoded_len(class) as int;
        let n = self.segments.len() as int;
        let start = self.laid_out_start();
        lemma_field_lengths(endian);
        assert(start == head + n * ph_len) by (nonlinear_arith)
            requires
                start == self.header.e_ehsize + self.header.e_phentsize * self.laid_out_phnum(),
                self.header.e_ehsize == head,
                self.header.e_phentsize == ph_len,
                self.laid_out_phnum() == n,
        ;
        assert forall|i: int| 0 <= i < n implies head <= #[trigger] self.segment_places()[i]
            && self.segment_places()[i] + self.segment_patches()[i].len() <= start by {
            assert(0 <= i * ph_len && (i + 1) * ph_len <= n * ph_len && (i + 1) * ph_len == i
                * ph_len + ph_len) by (nonlinear_arith)
                requires
                    0 <= i < n,
                    ph_len > 0,
            ;
            assert(self.segments[i].header.encoding(class, endian).len() == ph_len);
        }
        assert forall|i: int, j: int| 0 <= i < j < n implies #[trigger] self.segment_places()[i]
            + self.segment_patches()[i].len() <= #[trigger] self.segment_places()[j] by {
            assert((i + 1) * ph_len <= j * ph_len && (i + 1) * ph_len == i * ph_len + ph_len)
                by (nonlinear_arith)
                requires
                    0 <= i < j,
                    ph_len > 0,
            ;
            assert(self.segments[i].header.encoding(class, endian).len() == ph_len);
        }
        assert forall|i: int| 0 <= i < n implies (#[trigger] self.segment_patches()[i]).len()
            == ph_len by {
            assert(self.segments[i].header.encoding(class, endian).len() == ph_len);
        }
    }

    /// The section bodies of a well-formed object stand one behind the
    /// other between the program header table and the section header table.
    pub proof fn lemma_body_places(self)
        requires
            self.well_formed(),
        ensures
            in_order(
                self.body_places(),
                self.body_patches(),
                self.sections.len() as int,
                self.laid_out_start(),
                self.header.e_shoff as int,
            ),
            self.laid_out_start() <= self.header.e_shoff,
    {
        let m = self.sections.len() as int;
        self.lemma_well_formed();
        reveal(ObjectView::well_formed);
        assert forall|i: int| 0 <= i < m implies self.laid_out_start()
            <= #[trigger] self.body_places()[i] && self.body_places()[i]
            + self.body_patches()[i].len() <= self.header.e_shoff by {
            self.lemma_laid_out_offsets(i, i);
        }
        assert forall|i: int, j: int| 0 <= i < j < m implies #[trigger] self.body_places()[i]
            + self.body_patches()[i].len() <= #[trigger] self.body_places()[j] by {
            self.lemma_laid_out_offsets(i, j);
        }
        crate::layout::lemma_layout_grows(
            self.laid_out_start(),
            self.laid_out_aligns(),
            self.laid_out_sizes(),
            0,
            m,
        );
        crate::util::lemma_align_up(self.laid_out_end(), 16);
    }

    /// The section headers of a well-formed object stand one behind the
    /// other from the offset of their table on.
    pub proof fn lemma_header_places(self, ceiling: int)
        requires
            self.well_formed(),
            ceiling == self.header.e_shoff + self.sections.len() * SectionHeader::encoded_len(
                self.header.e_ident.ei_class,
            ),
        ensures
            in_order(
                self.header_places(),
                self.header_patches(),
                self.sections.len() as int,
                self.header.e_shoff as int,
                ceiling,
            ),
            forall|i: int|
                0 <= i < self.sections.len() ==> (#[trigger] self.header_patches()[i]).len()
                    == SectionHeader::encoded_len(self.header.e_ident.ei_class),
    {
        let class = self.header.e_ident.ei_class;
        self.lemma_well_formed();
        let endian = self.header.e_ident.ei_data;
        let sh_len = SectionHeader::encoded_len(class) as int;
        let m = self.sections.len() as int;
        let shoff = self.header.e_shoff as int;
        lemma_field_lengths(endian);
        assert forall|i: int| 0 <= i < m implies shoff <= #[trigger] self.header_places()[i]
            && self.header_places()[i] + self.header_patches()[i].len() <= ceiling by {
            assert(0 <= i * sh_len && (i + 1) * sh_len <= m * sh_len && (i + 1) * sh_len == i
                * sh_len + sh_len) by (nonlinear_arith)
                requires
                    0 <= i < m,
                    sh_len > 0,
            ;
            assert(self.sections[i].1.header.encoding(class, endian).len() == sh_len);
        }
        assert forall|i: int, j: int| 0 <= i < j < m implies #[trigger] self.header_places()[i]
            + self.header_patches()[i].len() <= #[trigger] self.header_places()[j] by {
            assert((i + 1) * sh_len <= j * sh_len && (i + 1) * sh_len == i * sh_len + sh_len)
                by (nonlinear_arith)
                requires
                    0 <= i < j,
                    sh_len > 0,
            ;
            assert(self.sections[i].1.header.encoding(class, endian).len() == sh_len);
        }
        assert forall|i: int| 0 <= i < m implies (#[trigger] self.header_patches()[i]).len()
            == sh_len by {
            assert(self.sections[i].1.header.encoding(class, endian).len() == sh_len);
        }
    }

    /// In the image of a well-formed object every part stands whole at its
    /// place: the file header at the start, every program header, every
    /// section body and every section header where the object says.
    pub proof fn lemma_image(self, image: Seq<u8>)
        requires
            self.well_formed(),
        ensures
            stands_at(self.serialized(image), 0, self.header.encoding()),
            forall|k: int|
                0 <= k < self.segments.len() ==> stands_at(
                    self.serialized(image),
                    #[trigger] self.segment_places()[k],
                    self.segment_patches()[k],
                ),
            forall|k: int|
                0 <= k < self.sections.len() ==> stands_at(
                    self.serialized(image),
                    #[trigger] self.body_places()[k],
                    self.body_patches()[k],
                ),
            forall|k: int|
                0 <= k < self.sections.len() ==> stands_at(
                    self.serialized(image),
                    #[trigger] self.header_places()[k],
                    self.header_patches()[k],
                ),
    {
        let class = self.header.e_ident.ei_class;
        let n = self.segments.len() as int;
        let m = self.sections.len() as int;
        let ceiling = self.header.e_shoff + self.sections.len() * SectionHeader::encoded_len(class);
        self.lemma_well_formed();
        self.header.lemma_decode_encode();
        self.lemma_segment_places();
        self.lemma_body_places();
        self.lemma_header_places(ceiling);
        let base = overlay(image, 0, self.header.encoding());
        self.lemma_written_patches(base, n);
        self.lemma_written_patches(
            patched(base, self.segment_places(), self.segment_patches(), n),
            m,
        );
        self.lemma_written_patches(
            patched(
                patched(base, self.segment_places(), self.segment_patches(), n),
                self.body_places(),
                self.body_patches(),
                m,
            ),
            m,
        );
        lemma_layers(
            image,
            self.header.encoding(),
            self.segment_places(),
            self.segment_patches(),
            self.body_places(),
            self.body_patches(),
            self.header_places(),
            self.header_patches(),
            self.laid_out_start(),
            self.header.e_shoff as int,
            ceiling,
        );
    }
}

/// Whether `part` stands whole at `at` in `image`.
pub open spec fn stands_at(image: Seq<u8>, at: int, part: Seq<u8>) -> bool {
    0 <= at && at + part.len() <= image.len() && image.subrange(at, at + part.len()) == part
}

/// A stretch that stands in an image stands in every longer image that
/// shares the bytes below a bound with it, where the stretch ends at or
/// before that bound.
pub proof fn lemma_stands_on(before: Seq<u8>, after: Seq<u8>, floor: int, at: int, part: Seq<u8>)
    requires
        stands_at(before, at, part),
        at + part.len() <= floor,
        before.len() <= after.len(),
        forall|k: int| 0 <= k < floor && k < before.len() ==> #[trigger] after[k] == before[k],
    ensures
        stands_at(after, at, part),
{
    lemma_kept_stretch(before, after, floor, at, part.len() as int);
}

/// Four layers written one after the other, each behind the one before,
/// all stand whole in the image at the end.
pub proof fn lemma_layers(
    image: Seq<u8>,
    first: Seq<u8>,
    low_places: Seq<int>,
    low: Seq<Seq<u8>>,
    mid_places: Seq<int>,
    mid: Seq<Seq<u8>>,
    top_places: Seq<int>,
    top: Seq<Seq<u8>>,
    start: int,
    high: int,
    ceiling: int,
)
    requires
        low_places.len() == low.len(),
        mid_places.len() == mid.len(),
        top_places.len() == top.len(),
        first.len() <= start <= high,
        in_order(low_places, low, low_places.len() as int, first.len() as int, start),
        in_order(mid_places, mid, mid_places.len() as int, start, high),
        in_order(top_places, top, top_places.len() as int, high, ceiling),
    ensures
        ({
            let last = patched(
                patched(
                    patched(overlay(image, 0, first), low_places, low, low_places.len() as int),
                    mid_places,
                    mid,
                    mid_places.len() as int,
                ),
                top_places,
                top,
                top_places.len() as int,
            );
            &&& stands_at(last, 0, first)
            &&& forall|k: int| 0 <= k < low_places.len()
                ==> stands_at(last, #[trigger] low_places[k], low[k])
            &&& forall|k: int| 0 <= k < mid_places.len()
                ==> stands_at(last, #[trigger] mid_places[k], mid[k])
            &&& forall|k: int| 0 <= k < top_places.len()
                ==> stands_at(last, #[trigger] top_places[k], top[k])
        }),
{
    let head = first.len() as int;
    let base = overlay(image, 0, first);
    let with_low = patched(base, low_places, low, low_places.len() as int);
    let with_mid = patched(with_low, mid_places, mid, mid_places.len() as int);
    let with_top = patched(with_mid, top_places, top, top_places.len() as int);
    assert(base.subrange(0, head) =~= first);
    lemma_patched(base, low_places, low, low_places.len() as int, head, start);
    lemma_patched(with_low, mid_places, mid, mid_places.len() as int, start, high);
    lemma_patched(with_mid, top_places, top, top_places.len() as int, high, ceiling);
    lemma_stands_on(base, with_low, head, 0, first);
    lemma_stands_on(with_low, with_mid, start, 0, first);
    lemma_stands_on(with_mid, with_top, high, 0, first);
    assert forall|k: int| 0 <= k < low_places.len() implies stands_at(
        with_top,
        #[trigger] low_places[k],
        low[k],
    ) by {
        assert(with_low.subrange(low_places[k], low_places[k] + low[k].len()) == low[k]);
        lemma_stands_on(with_low, with_mid, start, low_places[k], low[k]);
        lemma_stands_on(with_mid, with_top, high, low_places[k], low[k]);
    }
    assert forall|k: int| 0 <= k < mid_places.len() implies stands_at(
        with_top,
        #[trigger] mid_places[k],
        mid[k],
    ) by {
        assert(with_mid.subrange(mid_places[k], mid_places[k] + mid[k].len()) == mid[k]);
        lemma_stands_on(with_mid, with_top, high, mid_places[k], mid[k]);
    }
    assert forall|k: int| 0 <= k < top_places.len() implies stands_at(
        with_top,
        #[trigger] top_places[k],
        top[k],
    ) by {
        assert(with_top.subrange(top_places[k], top_places[k] + top[k].len()) == top[k]);
    }
}


impl ObjectView {
    /// The object as it is read back from its image: itself, with the two
    /// string tables of the image as the cached ones.
    pub open spec fn read_back(&self) -> ObjectView {
        ObjectView {
            shstrtab: Some(self.sections[find_name(self.section_names(), ".shstrtab"@).unwrap()].1),
            strtab: Some(self.sections[find_name(self.section_names(), ".strtab"@).unwrap()].1),
            ..*self
        }
    }

    /// What a well-formed object, being its own layout, says of its counts,
    /// its name offsets and its three built sections.
    pub proof fn lemma_own_layout(self)
        requires
            self.well_formed(),
        ensures
            self.header.e_phnum == self.segments.len(),
            self.header.e_shnum == self.sections.len(),
            find_name(self.section_names(), ".symtab"@) is Some,
            find_name(self.section_names(), ".strtab"@) is Some,
            find_name(self.section_names(), ".shstrtab"@) is Some,
            self.header.e_shstrndx == find_name(self.section_names(), ".shstrtab"@).unwrap(),
            0 <= find_name(self.section_names(), ".symtab"@).unwrap() < self.sections.len(),
            0 <= find_name(self.section_names(), ".strtab"@).unwrap() < self.sections.len(),
            0 <= find_name(self.section_names(), ".shstrtab"@).unwrap() < self.sections.len(),
            self.sections[find_name(self.section_names(), ".symtab"@).unwrap()].1.body
                == symbol_table(
                values_of(self.symbols),
                self.header.e_ident.ei_class,
                self.header.e_ident.ei_data,
            ),
            self.sections[find_name(self.section_names(), ".strtab"@).unwrap()].1.body
                == name_table(self.symbol_names()),
            self.sections[find_name(self.section_names(), ".shstrtab"@).unwrap()].1.body
                == name_table(self.section_names()),
            forall|i: int|
                0 <= i < self.sections.len() ==> (#[trigger] self.sections[i]).1.header.sh_name
                    == name_offset(self.section_names(), i) as u32,
            forall|i: int|
                0 <= i < self.symbols.len() ==> (#[trigger] self.symbols[i]).1.sym_name
                    == name_offset(self.symbol_names(), i) as u32,
    {
        reveal(ObjectView::well_formed);
        self.lemma_laid_out_tables();
        lemma_find_name(self.section_names(), ".symtab"@);
        lemma_find_name(self.section_names(), ".strtab"@);
        lemma_find_name(self.section_names(), ".shstrtab"@);
        let post = self.laid_out();
        assert forall|i: int| 0 <= i < self.sections.len() implies (
        #[trigger] self.sections[i]).1.header.sh_name == name_offset(self.section_names(), i)
            as u32 by {
            assert(post.sections[i].1.header == self.laid_out_section_header(i));
        }
        assert forall|i: int| 0 <= i < self.symbols.len() implies (
        #[trigger] self.symbols[i]).1.sym_name == name_offset(self.symbol_names(), i) as u32 by {
            assert(post.symbols[i].1 == self.laid_out_symbol(i));
        }
    }

    /// The file header is read back from the image.
    pub proof fn lemma_parsed_header(self, image: Seq<u8>)
        requires
            self.well_formed(),
        ensures
            Header::decoding_error(self.serialized(image), 0) is None,
            Header::decoding(self.serialized(image), 0) == self.header,
    {
        self.lemma_well_formed();
        self.lemma_image(image);
        self.header.lemma_decode_encode();
        self.header.lemma_decoding_at(self.serialized(image), 0);
    }

    /// The segments are read back from the image.
    pub proof fn lemma_parsed_segments(self, image: Seq<u8>)
        requires
            self.well_formed(),
        ensures
            !Self::segments_truncated(self.header, self.serialized(image)),
            Self::parsed_segments(self.header, self.serialized(image)) == self.segments,
    {
        let f = self.serialized(image);
        let class = self.header.e_ident.ei_class;
        let endian = self.header.e_ident.ei_data;
        let n = self.segments.len() as int;
        self.lemma_well_formed();
        self.lemma_image(image);
        self.lemma_own_layout();
        self.lemma_segment_places();
        assert forall|k: int| 0 <= k < n implies #[trigger] Self::parsed_segments(
            self.header,
            f,
        )[k] == self.segments[k] by {
            assert(stands_at(f, self.segment_places()[k], self.segment_patches()[k]));
            self.segments[k].header.lemma_decoding_at(
                class,
                endian,
                f,
                Self::segment_at(self.header, k),
            );
        }
        assert(Self::parsed_segments(self.header, f) =~= self.segments);
        if n > 0 {
            assert(stands_at(f, self.segment_places()[n - 1], self.segment_patches()[n - 1]));
            assert(Self::segment_at(self.header, n) == Self::segment_at(self.header, n - 1)
                + ProgramHeader::encoded_len(class)) by (nonlinear_arith)
                requires
                    Self::segment_at(self.header, n) == self.header.e_phoff + n
                        * ProgramHeader::encoded_len(class),
                    Self::segment_at(self.header, n - 1) == self.header.e_phoff + (n - 1)
                        * ProgramHeader::encoded_len(class),
            ;
        }
    }

    /// A section that stands in an image with its header and its body is
    /// read back from it.
    pub proof fn lemma_section_parsed(h: Header, f: Seq<u8>, k: int, section: SectionView)
        requires
            0 <= k,
            section.header.fits(h.e_ident.ei_class),
            section.header.sh_size == section.body.len(),
            stands_at(
                f,
                Self::section_header_at(h, k),
                section.header.encoding(h.e_ident.ei_class, h.e_ident.ei_data),
            ),
            stands_at(f, section.header.sh_offset as int, section.body),
        ensures
            Self::parsed_section(h, f, k) == section,
            !Self::section_truncated(h, f, k),
    {
        let class = h.e_ident.ei_class;
        let endian = h.e_ident.ei_data;
        let sh_len = SectionHeader::encoded_len(class) as int;
        lemma_field_lengths(endian);
        assert(section.header.encoding(class, endian).len() == sh_len);
        section.header.lemma_decoding_at(class, endian, f, Self::section_header_at(h, k));
        assert(Self::section_header_at(h, k + 1) == Self::section_header_at(h, k) + sh_len)
            by (nonlinear_arith)
            requires
                Self::section_header_at(h, k + 1) == h.e_shoff + (k + 1) * sh_len,
                Self::section_header_at(h, k) == h.e_shoff + k * sh_len,
        ;
        assert(Self::parsed_section(h, f, k) =~= section);
    }

    /// The sections are read back from the image, header and body.
    pub proof fn lemma_parsed_sections(self, image: Seq<u8>)
        requires
            self.well_formed(),
        ensures
            !Self::sections_truncated(self.header, self.serialized(image)),
            Self::parsed_sections(self.header, self.serialized(image)) == values_of(self.sections),
    {
        let f = self.serialized(image);
        let h = self.header;
        let m = self.sections.len() as int;
        assert(h.e_shnum == m) by {
            self.lemma_own_layout();
        }
        assert forall|k: int| 0 <= k < m implies #[trigger] Self::parsed_section(h, f, k)
            == self.sections[k].1 by {
            self.lemma_section_read_back(image, k);
        }
        assert forall|k: int| 0 <= k < m implies !#[trigger] Self::section_truncated(h, f, k) by {
            self.lemma_section_read_back(image, k);
        }
        assert(Self::parsed_sections(h, f) =~= values_of(self.sections));
    }

    /// Section `k` is read back from the image, header and body.
    pub proof fn lemma_section_read_back(self, image: Seq<u8>, k: int)
        requires
            self.well_formed(),
            0 <= k < self.sections.len(),
        ensures
            Self::parsed_section(self.header, self.serialized(image), k) == self.sections[k].1,
            !Self::section_truncated(self.header, self.serialized(image), k),
    {
        let f = self.serialized(image);
        self.lemma_well_formed();
        self.lemma_image(image);
        assert(stands_at(f, self.header_places()[k], self.header_patches()[k]));
        assert(stands_at(f, self.body_places()[k], self.body_patches()[k]));
        assert(self.sections[k].1.header.fits(self.header.e_ident.ei_class));
        Self::lemma_section_parsed(self.header, f, k, self.sections[k].1);
    }

    /// The sections are read back under their names.
    pub proof fn lemma_parsed_named_sections(self, image: Seq<u8>)
        requires
            self.well_formed(),
        ensures
            Self::parsed_named_sections(self.header, self.serialized(image)) == Ok::<
                Seq<(Seq<char>, SectionView)>,
                ElfError,
            >(self.sections),
    {
        let f = self.serialized(image);
        let names = self.section_names();
        let values = values_of(self.sections);
        self.lemma_well_formed();
        self.lemma_parsed_sections(image);
        self.lemma_own_layout();
        let offsets = section_name_offsets(values);
        assert forall|i: int| 0 <= i < names.len() implies #[trigger] offsets[i] == name_offset(
            names,
            i,
        ) as u32 by {
            assert(self.sections[i].1.header.sh_name == name_offset(names, i) as u32);
        }
        assert forall|i: int| 0 <= i < names.len() implies !encode_utf8(
            #[trigger] names[i],
        ).contains(0u8) by {
            assert(names[i] == self.sections[i].0);
        }
        lemma_names_read_back(names, offsets);
        lemma_inserted_all_distinct(names, values);
        assert(zipped(names, values) =~= self.sections);
        assert(values[self.header.e_shstrndx as int].body == name_table(names));
    }

    /// The symbols are read back under their names from the sections.
    pub proof fn lemma_parsed_named_symbols(self)
        requires
            self.well_formed(),
        ensures
            Self::parsed_named_symbols(self.header, self.sections) == Ok::<
                Seq<(Seq<char>, Symbol)>,
                ElfError,
            >(self.symbols),
    {
        let class = self.header.e_ident.ei_class;
        let endian = self.header.e_ident.ei_data;
        let names = self.symbol_names();
        let values = values_of(self.symbols);
        let size = Symbol::encoded_len(class) as int;
        let count = values.len() as int;
        self.lemma_well_formed();
        self.lemma_own_layout();
        let symtab = self.sections[find_name(self.section_names(), ".symtab"@).unwrap()].1;
        let strtab = self.sections[find_name(self.section_names(), ".strtab"@).unwrap()].1;
        crate::layout::lemma_symbol_table_len(values, class, endian);
        assert(symtab.header.sh_size == count * size);
        assert((count * size) / size == count) by (nonlinear_arith)
            requires
                size > 0,
                count >= 0,
        ;
        assert(Self::symbol_count(symtab) == count);
        assert forall|k: int| 0 <= k < count implies #[trigger] Self::parsed_symbols(
            self.header,
            symtab,
        )[k] == values[k] by {
            lemma_symbol_table_entry(values, class, endian, k);
            assert((k + 1) * size == k * size + size) by (nonlinear_arith);
            assert(0 <= k * size) by (nonlinear_arith)
                requires
                    0 <= k,
                    0 < size,
            ;
            assert(values[k] == self.symbols[k].1);
            values[k].lemma_decoding_at(class, endian, symtab.body, k * size);
        }
        assert(Self::parsed_symbols(self.header, symtab) =~= values);
        let offsets = symbol_name_offsets(values);
        assert forall|i: int| 0 <= i < names.len() implies #[trigger] offsets[i] == name_offset(
            names,
            i,
        ) as u32 by {
            assert(self.symbols[i].1.sym_name == name_offset(names, i) as u32);
        }
        assert forall|i: int| 0 <= i < names.len() implies !encode_utf8(
            #[trigger] names[i],
        ).contains(0u8) by {
            assert(names[i] == self.symbols[i].0);
        }
        lemma_names_read_back(names, offsets);
        lemma_inserted_all_distinct(names, values);
        assert(zipped(names, values) =~= self.symbols);
    }

    /// The caches play no part in the layout.
    pub proof fn lemma_read_back_laid_out(self)
        requires
            self.well_formed(),
        ensures
            self.read_back().layout_error() is None,
            self.read_back().laid_out() == self.read_back(),
    {
        let back = self.read_back();
        reveal(ObjectView::well_formed);
        assert(back.laid_out_sizes() =~= self.laid_out_sizes());
        assert(back.laid_out_aligns() =~= self.laid_out_aligns());
        assert(back.laid_out().sections =~= self.laid_out().sections);
        assert(back.laid_out().symbols =~= self.laid_out().symbols);
        assert(back.laid_out().segments =~= self.laid_out().segments);
        assert(back.laid_out() =~= back);
    }

    /// Reading the image of a well-formed object gives the object back: the
    /// header, the segments, the sections with their names and bodies, and
    /// the symbols with their names. This holds whatever the stream held
    /// before the object was written to it.
    pub proof fn lemma_round_trip(self, image: Seq<u8>)
        requires
            self.well_formed(),
        ensures
            Self::parsed(self.serialized(image)) == Ok::<ObjectView, ElfError>(self.read_back()),
    {
        let f = self.serialized(image);
        let h = Header::decoding(f, 0);
        assert(Header::decoding_error(f, 0) is None && h == self.header) by {
            self.lemma_parsed_header(image);
        }
        assert(!Self::segments_truncated(h, f) && Self::parsed_segments(h, f) == self.segments) by {
            self.lemma_parsed_segments(image);
        }
        assert(Self::parsed_named_sections(h, f) == Ok::<Seq<(Seq<char>, SectionView)>, ElfError>(
            self.sections,
        )) by {
            self.lemma_parsed_named_sections(image);
        }
        assert(Self::parsed_named_symbols(h, self.sections) == Ok::<
            Seq<(Seq<char>, Symbol)>,
            ElfError,
        >(self.symbols)) by {
            self.lemma_parsed_named_symbols();
        }
        let at = find_name(self.section_names(), ".shstrtab"@).unwrap();
        assert(Self::parsed_sections(h, f)[h.e_shstrndx as int] == self.sections[at].1) by {
            self.lemma_parsed_sections(image);
            self.lemma_own_layout();
        }
        assert(names_of(self.sections) == self.section_names());
        assert(Self::parsed_raw(f) == Ok::<ObjectView, ElfError>(self.read_back()));
        assert(self.read_back().layout_error() is None && self.read_back().laid_out()
            == self.read_back()) by {
            self.lemma_read_back_laid_out();
        }
    }
}

} // verus!
