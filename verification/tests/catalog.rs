use colorum::{
    best_first_for_ui, build_rank_map, build_sorted_names, build_token_index_for, colors_for,
    colors_for_origin, colors_lc, combine_hex, palette_data, split_hex, convert_to_legacy_format, css_exact_match, dropdown_results_for_ui,
    extract_integer, extract_kelvin_temp, filtered_names_for_origin, find_closest_color_name,
    first_kelvin_temp, get_closest_color_name_from_hex, get_closest_color_name_from_rgb,
    hex_for_name, hex_for_name_in_origin, hex_to_rgb, is_heavy_origin, lookup_by_name,
    lookup_by_name_ci, name_for_hex, name_precedes, nearest_css_color, nearest_name_r_eq_00,
    normalize_hex, origin_group_priority, origin_names, origin_priority_of, origin_rank,
    origin_slice, origins_vec, r_eq_00_names, retain_selection, rgb_to_hex, search_colors,
    search_in_origin, search_positions, search_substring, search_tokens_all, search_tokens_any,
    sort_by_temperature, sort_dropdown_by_origin, sort_results_for_all, tokenize_lc,
    ColorCatalog, ColorName, ColorsFor, Entity, HexCode, NameOrder, Origin, Registry, Rgb,
    ToLegacyFormat, TokenMode, MAX_RESULTS,
};

fn css_colors() -> Vec<(HexCode, ColorName)> {
    let raw: &[(&'static str, &'static str)] = &[
        ("#F0F8FF", "aliceblue"),
        ("#FAEBD7", "antiquewhite"),
        ("#00FFFF", "aqua"),
        ("#7FFFD4", "aquamarine"),
        ("#F0FFFF", "azure"),
        ("#F5F5DC", "beige"),
        ("#FFE4C4", "bisque"),
        ("#000000", "black"),
        ("#FFEBCD", "blanchedalmond"),
        ("#0000FF", "blue"),
        ("#8A2BE2", "blueviolet"),
        ("#A52A2A", "brown"),
        ("#DEB887", "burlywood"),
        ("#5F9EA0", "cadetblue"),
        ("#7FFF00", "chartreuse"),
        ("#D2691E", "chocolate"),
        ("#FF7F50", "coral"),
        ("#6495ED", "cornflowerblue"),
        ("#FFF8DC", "cornsilk"),
        ("#DC143C", "crimson"),
        ("#00FFFF", "cyan"),
        ("#00008B", "darkblue"),
        ("#008B8B", "darkcyan"),
        ("#B8860B", "darkgoldenrod"),
        ("#A9A9A9", "darkgray"),
        ("#006400", "darkgreen"),
        ("#A9A9A9", "darkgrey"),
        ("#BDB76B", "darkkhaki"),
        ("#8B008B", "darkmagenta"),
        ("#556B2F", "darkolivegreen"),
        ("#FF8C00", "darkorange"),
        ("#9932CC", "darkorchid"),
        ("#8B0000", "darkred"),
        ("#E9967A", "darksalmon"),
        ("#8FBC8F", "darkseagreen"),
        ("#483D8B", "darkslateblue"),
        ("#2F4F4F", "darkslategray"),
        ("#2F4F4F", "darkslategrey"),
        ("#00CED1", "darkturquoise"),
        ("#9400D3", "darkviolet"),
        ("#FF1493", "deeppink"),
        ("#00BFFF", "deepskyblue"),
        ("#696969", "dimgray"),
        ("#696969", "dimgrey"),
        ("#1E90FF", "dodgerblue"),
        ("#B22222", "firebrick"),
        ("#FFFAF0", "floralwhite"),
        ("#228B22", "forestgreen"),
        ("#FF00FF", "fuchsia"),
        ("#DCDCDC", "gainsboro"),
        ("#F8F8FF", "ghostwhite"),
        ("#FFD700", "gold"),
        ("#DAA520", "goldenrod"),
        ("#808080", "gray"),
        ("#008000", "green"),
        ("#ADFF2F", "greenyellow"),
        ("#808080", "grey"),
        ("#F0FFF0", "honeydew"),
        ("#FF69B4", "hotpink"),
        ("#CD5C5C", "indianred"),
        ("#4B0082", "indigo"),
        ("#FFFFF0", "ivory"),
        ("#F0E68C", "khaki"),
        ("#E6E6FA", "lavender"),
        ("#FFF0F5", "lavenderblush"),
        ("#7CFC00", "lawngreen"),
        ("#FFFACD", "lemonchiffon"),
        ("#ADD8E6", "lightblue"),
        ("#F08080", "lightcoral"),
        ("#E0FFFF", "lightcyan"),
        ("#FAFAD2", "lightgoldenrodyellow"),
        ("#D3D3D3", "lightgray"),
        ("#90EE90", "lightgreen"),
        ("#D3D3D3", "lightgrey"),
        ("#FFB6C1", "lightpink"),
        ("#FFA07A", "lightsalmon"),
        ("#20B2AA", "lightseagreen"),
        ("#87CEFA", "lightskyblue"),
        ("#778899", "lightslategray"),
        ("#778899", "lightslategrey"),
        ("#B0C4DE", "lightsteelblue"),
        ("#FFFFE0", "lightyellow"),
        ("#00FF00", "lime"),
        ("#32CD32", "limegreen"),
        ("#FAF0E6", "linen"),
        ("#FF00FF", "magenta"),
        ("#800000", "maroon"),
        ("#66CDAA", "mediumaquamarine"),
        ("#0000CD", "mediumblue"),
        ("#BA55D3", "mediumorchid"),
        ("#9370DB", "mediumpurple"),
        ("#3CB371", "mediumseagreen"),
        ("#7B68EE", "mediumslateblue"),
        ("#00FA9A", "mediumspringgreen"),
        ("#48D1CC", "mediumturquoise"),
        ("#C71585", "mediumvioletred"),
        ("#191970", "midnightblue"),
        ("#F5FFFA", "mintcream"),
        ("#FFE4E1", "mistyrose"),
        ("#FFE4B5", "moccasin"),
        ("#FFDEAD", "navajowhite"),
        ("#000080", "navy"),
        ("#FDF5E6", "oldlace"),
        ("#808000", "olive"),
        ("#6B8E23", "olivedrab"),
        ("#FFA500", "orange"),
        ("#FF4500", "orangered"),
        ("#DA70D6", "orchid"),
        ("#EEE8AA", "palegoldenrod"),
        ("#98FB98", "palegreen"),
        ("#AFEEEE", "paleturquoise"),
        ("#DB7093", "palevioletred"),
        ("#FFEFD5", "papayawhip"),
        ("#FFDAB9", "peachpuff"),
        ("#CD853F", "peru"),
        ("#FFC0CB", "pink"),
        ("#DDA0DD", "plum"),
        ("#B0E0E6", "powderblue"),
        ("#800080", "purple"),
        ("#663399", "rebeccapurple"),
        ("#FF0000", "red"),
        ("#BC8F8F", "rosybrown"),
        ("#4169E1", "royalblue"),
        ("#8B4513", "saddlebrown"),
        ("#FA8072", "salmon"),
        ("#F4A460", "sandybrown"),
        ("#2E8B57", "seagreen"),
        ("#FFF5EE", "seashell"),
        ("#A0522D", "sienna"),
        ("#C0C0C0", "silver"),
        ("#87CEEB", "skyblue"),
        ("#6A5ACD", "slateblue"),
        ("#708090", "slategray"),
        ("#708090", "slategrey"),
        ("#FFFAFA", "snow"),
        ("#00FF7F", "springgreen"),
        ("#4682B4", "steelblue"),
        ("#D2B48C", "tan"),
        ("#008080", "teal"),
        ("#D8BFD8", "thistle"),
        ("#FF6347", "tomato"),
        ("#40E0D0", "turquoise"),
        ("#EE82EE", "violet"),
        ("#F5DEB3", "wheat"),
        ("#FFFFFF", "white"),
        ("#F5F5F5", "whitesmoke"),
        ("#FFFF00", "yellow"),
        ("#9ACD32", "yellowgreen"),
    ];
    raw.iter().map(|&(h, n)| (HexCode::new(h), ColorName::new_full(n, Entity::Color, Origin::Css, NameOrder::Name))).collect()
}

fn xkcd_colors() -> Vec<(HexCode, ColorName)> {
    let raw: &[(&'static str, &'static str)] = &[
        ("#7E1E9C", "purple"),
        ("#15B01A", "green"),
        ("#0343DF", "blue"),
        ("#FF81C0", "pink"),
        ("#653700", "brown"),
        ("#E50000", "red"),
        ("#95D0FC", "light blue"),
        ("#029386", "teal"),
        ("#F97306", "orange"),
        ("#96F97B", "light green"),
        ("#C20078", "magenta"),
        ("#FFFF14", "yellow"),
        ("#75BBFD", "sky blue"),
        ("#929591", "grey"),
        ("#89FE05", "lime green"),
        ("#BF77F6", "light purple"),
        ("#9A0EEA", "violet"),
        ("#033500", "dark green"),
        ("#06C2AC", "turquoise"),
        ("#C79FEF", "lavender"),
        ("#00035B", "dark blue"),
        ("#D1B26F", "tan"),
        ("#00FFFF", "cyan"),
        ("#13EAC9", "aqua"),
        ("#06470C", "forest green"),
        ("#AE7181", "mauve"),
        ("#35063E", "dark purple"),
        ("#01FF07", "bright green"),
        ("#650021", "maroon"),
        ("#6E750E", "olive"),
        ("#FF796C", "salmon"),
        ("#E6DAA6", "beige"),
        ("#0504AA", "royal blue"),
        ("#001146", "navy blue"),
        ("#CEA2FD", "lilac"),
        ("#000000", "black"),
        ("#FF028D", "hot pink"),
        ("#AD8150", "light brown"),
        ("#C7FDB5", "pale green"),
        ("#FFB07C", "peach"),
        ("#677A04", "olive green"),
        ("#CB416B", "dark pink"),
        ("#8E82FE", "periwinkle"),
        ("#53FCA1", "sea green"),
        ("#AAFF32", "lime"),
        ("#380282", "indigo"),
        ("#CEB301", "mustard"),
        ("#FFD1DF", "light pink"),
        ("#840000", "dark red"),
        ("#ACC2D9", "cloudy blue"),
        ("#952E8F", "warm purple"),
        ("#FF6F52", "orange pink"),
        ("#005249", "dark blue green"),
        ("#533CC6", "blue with a hint of purple"),
        ("#EFB435", "macaroni and cheese"),
        ("#030764", "darkblue"),
    ];
    raw.iter().map(|&(h, n)| (HexCode::new(h), ColorName::new_full(n, Entity::Color, Origin::XKCD, NameOrder::Name))).collect()
}

fn persian_colors() -> Vec<(HexCode, ColorName)> {
    let raw: &[(&'static str, &'static str)] = &[
        ("#C81D11", "Persian red"),
        ("#701C1C", "Persian plum"),
        ("#F77FBE", "Persian pink"),
        ("#FE28A2", "Persian rose"),
        ("#00A693", "Persian green"),
        ("#D99058", "Persian orange"),
        ("#32127A", "Persian indigo"),
        ("#1C39BB", "Persian blue"),
        ("#0067A5", "Persian medium blue"),
    ];
    raw.iter().map(|&(h, n)| (HexCode::new(h), ColorName::new_full(n, Entity::Place, Origin::Persian, NameOrder::Name))).collect()
}

fn italian_brand_colors() -> Vec<(HexCode, ColorName)> {
    let raw: &[(&'static str, &'static str)] = &[
        ("#ed1c24", "Abarth red"),
        ("#ffd503", "Abarth yellow"),
        ("#00793a", "Abarth green"),
        ("#000000", "Abarth black"),
        ("#000000", "Abici black"),
        ("#e10600", "Accossato red"),
        ("#f6d155", "Acqua di Parma parma yellow"),
        ("#000000", "Acqua di Parma black"),
        ("#003776", "Acqua Minerale San Benedetto blue"),
        ("#61b3e4", "Acqua Minerale San Benedetto light blue"),
        ("#003366", "Aeritalia blue"),
        ("#0a5ea8", "Aermacchi blue"),
        ("#ffde02", "Agip yellow"),
        ("#e21d39", "Agip red"),
        ("#000000", "Agip black"),
        ("#294386", "Agusta blue"),
        ("#c8102e", "Agusta red"),
        ("#c8102e", "AgustaWestland red"),
        ("#003e7e", "AgustaWestland blue"),
        ("#6c757d", "AgustaWestland gray"),
        ("#ed1c24", "AGV red"),
        ("#00a651", "AGV green"),
        ("#ffffff", "AGV white"),
        ("#003399", "ALAN blue"),
        ("#c8102e", "Alenia Aermacchi red"),
        ("#003e7e", "Alenia Aermacchi blue"),
        ("#c8102e", "Alenia Aeronautica red"),
        ("#fe3b1f", "Alessi red-orange"),
        ("#c6c6c6", "Alessi gray"),
        ("#c22636", "Alfa Romeo red"),
        ("#01804f", "Alfa Romeo green"),
        ("#1c3d72", "Alfa Romeo indigo"),
        ("#bbbbbb", "Alfa Romeo gray"),
        ("#00663f", "Alitalia green"),
        ("#bf210c", "Alitalia red"),
        ("#c41e3a", "Amarcord Brewery red"),
        ("#000000", "Amedei black"),
        ("#c8a45a", "Amedei gold"),
        ("#c8a45a", "Amedei Porcelana gold"),
        ("#5a3a1a", "Amedei Porcelana cacao brown"),
        ("#003087", "Angelini blue"),
        ("#71c5e9", "Angelini light blue"),
        ("#243144", "Angelini ebony"),
        ("#ffffff", "Angelini white"),
        ("#000000", "Ansaldi black"),
        ("#7a0019", "Antica Trattoria Bagutto maroon"),
        ("#c9a227", "Antica Trattoria Bagutto gold"),
        ("#000000", "Michele Ansaldi black"),
        ("#0076a8", "Ansaldo Energia blue"),
        ("#697475", "Ansaldo STS gray"),
        ("#005a8e", "Ansaldo STS blue"),
        ("#009847", "AnsaldoBreda green"),
        ("#d62828", "AnsaldoBreda red"),
        ("#0060aa", "API / IP blue"),
        ("#ee7918", "API / IP orange"),
        ("#4f83bf", "API / IP azure"),
        ("#7296ca", "API / IP light blue"),
        ("#ffffff", "API / IP white"),
        ("#e20714", "Aprilia red"),
        ("#000000", "Aprilia black"),
        ("#a0001e", "Aquila Italiana red"),
        ("#003a70", "ARGO blue"),
        ("#00a3e0", "ARGO light blue"),
        ("#ffffff", "ARGO white"),
        ("#e30613", "Ariston Thermo red"),
        ("#6f6f6f", "Ariston Thermo gray"),
        ("#000000", "Ariston Thermo black"),
        ("#ffffff", "Ariston Thermo white"),
        ("#000000", "Armani black"),
        ("#8f8f8f", "Armani gray"),
        ("#b3a99f", "Armani greige"),
        ("#e31c23", "Armani red"),
        ("#000000", "Armi Jager black"),
        ("#8b0000", "Armi Jager dark red"),
        ("#c0c0c0", "Armi Jager steel"),
        ("#ffd400", "Arrow yellow"),
        ("#0057a5", "Arrow blue"),
        ("#000000", "Arrow black"),
        ("#ffffff", "Arrow white"),
        ("#ff2b19", "Artemide red"),
        ("#000000", "Artemide black"),
        ("#ffffff", "Artemide white"),
        ("#c8102e", "Generali red"),
        ("#000000", "Generali black"),
        ("#f2f2f2", "Generali light gray"),
        ("#ffffff", "Generali white"),
        ("#f36f21", "Astra orange"),
        ("#003a70", "Astra blue"),
        ("#6e6e6e", "Astra gray"),
        ("#000000", "Astra black"),
        ("#0a5ea8", "Atala blue"),
        ("#ffffff", "Atala white"),
        ("#000000", "Atala black"),
        ("#e30613", "Atlantic red"),
        ("#003057", "Atlantic navy"),
        ("#6e6e6e", "Atlantic gray"),
        ("#ffffff", "Atlantic white"),
        ("#c8a45a", "Audio Analogue gold"),
        ("#000000", "Audio Analogue black"),
        ("#808080", "Audio Analogue gray"),
        ("#ffffff", "Audio Analogue white"),
        ("#1b75bc", "Audison blue"),
        ("#0d3b66", "Audison deep blue"),
        ("#000000", "Audison black"),
        ("#ffffff", "Audison white"),
        ("#7a0019", "Aurea burgundy"),
        ("#c8a45a", "Aurea gold"),
        ("#000000", "Aurea black"),
        ("#f2e8d5", "Aurea parchment"),
        ("#e41c23", "Auricchio red"),
        ("#ffd100", "Auricchio yellow"),
        ("#ffffff", "Auricchio white"),
        ("#007a3d", "Auricchio green"),
        ("#002b5b", "Aurora navy"),
        ("#c8a45a", "Aurora gold"),
        ("#000000", "Aurora black"),
        ("#ffffff", "Aurora white"),
        ("#0b2c6f", "Autobianchi navy"),
        ("#ffd100", "Autobianchi yellow"),
        ("#c0c0c0", "Autobianchi silver"),
        ("#ffffff", "Autobianchi white"),
        ("#003b75", "Avio blue"),
        ("#00a3e0", "Avio light blue"),
        ("#6e6e6e", "Avio gray"),
        ("#000000", "Avio black"),
        ("#0082c9", "Aviointeriors blue"),
        ("#6e6e6e", "Aviointeriors gray"),
        ("#000000", "Aviointeriors black"),
        ("#ffffff", "Aviointeriors white"),
        ("#0060aa", "AIPA blue"),
        ("#ee7918", "AIPA orange"),
        ("#4f83bf", "AIPA azure"),
        ("#ffffff", "AIPA white"),
        ("#ffd100", "ANIC yellow"),
        ("#000000", "ANIC black"),
        ("#e21d39", "ANIC red"),
        ("#7a0019", "Azimut burgundy"),
        ("#6e6e6e", "Azimut gray"),
        ("#c0c0c0", "Azimut silver"),
        ("#000000", "Azimut black"),
        ("#ffffff", "Azimut white"),
        ("#000000", "B&B Italia black"),
        ("#6e6e6e", "B&B Italia gray"),
        ("#ffffff", "B&B Italia white"),
        ("#002e5d", "Baglietto navy"),
        ("#c0c0c0", "Baglietto silver"),
        ("#ffffff", "Baglietto white"),
        ("#c96a50", "Baldelli terracotta"),
        ("#b5651d", "Baldelli clay"),
        ("#000000", "Baldelli black"),
        ("#ffffff", "Baldelli white"),
        ("#c8102e", "Baldini & Castoldi red"),
        ("#000000", "Baldini & Castoldi black"),
        ("#000000", "Baldinini black"),
        ("#d4af37", "Baldinini gold"),
        ("#8f8f8f", "Baldinini gray"),
        ("#c8102e", "Balocco red"),
        ("#ffd100", "Balocco yellow"),
        ("#ffffff", "Balocco white"),
        ("#cd0000", "Bandini Automobili racing red"),
        ("#000000", "Bandini Automobili black"),
        ("#c0c0c0", "Bandini Automobili silver"),
        ("#d4b483", "Barbanera parchment"),
        ("#000000", "Barbanera black"),
        ("#c8102e", "Barbanera red"),
        ("#004c99", "Barilla blue"),
        ("#e41c23", "Barilla red"),
        ("#ffffff", "Barilla white"),
        ("#005baa", "Bassetti blue"),
        ("#00a3e0", "Bassetti light blue"),
        ("#ffffff", "Bassetti white"),
        ("#ffcf00", "Bburago yellow"),
        ("#e10600", "Bburago red"),
        ("#000000", "Bburago black"),
        ("#e10600", "Benelli (firearms) red"),
        ("#000000", "Benelli (firearms) black"),
        ("#ffffff", "Benelli (firearms) white"),
        ("#00a651", "Benelli (motorcycles) green"),
        ("#000000", "Benelli (motorcycles) black"),
        ("#ffffff", "Benelli (motorcycles) white"),
        ("#002b5b", "Benetti navy"),
        ("#c0c0c0", "Benetti silver"),
        ("#ffffff", "Benetti white"),
        ("#009639", "Benetton green"),
        ("#e41c23", "Benetton red"),
        ("#ffd100", "Benetton yellow"),
        ("#0057b8", "Benetton blue"),
        ("#e30613", "Bennet red"),
        ("#000000", "Bennet black"),
        ("#ffffff", "Bennet white"),
        ("#003a70", "Berco blue"),
        ("#6e6e6e", "Berco gray"),
        ("#000000", "Berco black"),
        ("#003a70", "Beretta blue"),
        ("#c8a45a", "Beretta gold"),
        ("#000000", "Beretta black"),
        ("#ffffff", "Beretta white"),
        ("#c8a45a", "Bertagni gold"),
        ("#006241", "Bertagni green"),
        ("#e41c23", "Bertagni red"),
        ("#ffffff", "Bertagni white"),
        ("#e10600", "Beta red"),
        ("#000000", "Beta black"),
        ("#ffffff", "Beta white"),
        ("#000000", "Bialetti black"),
        ("#6e6e6e", "Bialetti gray"),
        ("#ffffff", "Bialetti white"),
        ("#7ec0a9", "Bianchi celeste"),
        ("#9adbe8", "Bianchi light celeste"),
        ("#000000", "Bianchi black"),
        ("#e10600", "Bimota red"),
        ("#000000", "Bimota black"),
        ("#ffffff", "Bimota white"),
        ("#e10600", "Birel red"),
        ("#000000", "Birel black"),
        ("#ffffff", "Birel white"),
        ("#e10600", "Birra Ichnusa red"),
        ("#000000", "Birra Ichnusa black"),
        ("#f2e6c9", "Birra Ichnusa beige"),
        ("#d4af37", "Birra Menabrea gold"),
        ("#b22222", "Birra Menabrea deep red"),
        ("#000000", "Birra Menabrea black"),
        ("#006633", "Birra Moretti green"),
        ("#b22222", "Birra Moretti red"),
        ("#f1e0c0", "Birra Moretti beige"),
        ("#0f5fa6", "Angelo Poretti blue"),
        ("#d4af37", "Angelo Poretti gold"),
        ("#ffffff", "Angelo Poretti white"),
        ("#c8102e", "Bizzarrini red"),
        ("#000000", "Bizzarrini black"),
        ("#c0c0c0", "Bizzarrini silver"),
        ("#1b75bc", "Blu blue"),
        ("#003a70", "Blu navy"),
        ("#000000", "Blu black"),
        ("#003366", "BPD blue"),
        ("#c8102e", "BPD red"),
        ("#000000", "BPD black"),
        ("#0061aa", "Bonfiglioli blue"),
        ("#6e6e6e", "Bonfiglioli gray"),
        ("#000000", "Bonfiglioli black"),
        ("#e10600", "Bontempi red"),
        ("#003a70", "Bontempi blue"),
        ("#000000", "Bontempi black"),
        ("#5c3a21", "Bontoni leather brown"),
        ("#000000", "Bontoni black"),
        ("#c8a45a", "Bontoni gold"),
        ("#e10600", "Borile red"),
        ("#000000", "Borile black"),
        ("#ffffff", "Borile white"),
        ("#e10600", "Bormioli Rocco red"),
        ("#ffffff", "Bormioli Rocco white"),
        ("#000000", "Bormioli Rocco black"),
        ("#d71920", "Borrani red"),
        ("#000000", "Borrani black"),
        ("#c0c0c0", "Borrani silver"),
        ("#000000", "Borsalino black"),
        ("#c8a45a", "Borsalino gold"),
        ("#8f8f8f", "Borsalino gray"),
        ("#c8a45a", "Boscolo gold"),
        ("#000000", "Boscolo black"),
        ("#ffffff", "Boscolo white"),
        ("#e10600", "Bottecchia red"),
        ("#000000", "Bottecchia black"),
        ("#ffffff", "Bottecchia white"),
        ("#6b4e3d", "Bottega Giotti brown"),
        ("#c8a45a", "Bottega Giotti gold"),
        ("#000000", "Bottega Giotti black"),
        ("#2bd62e", "Bottega Veneta green"),
        ("#e5d7c6", "Bottega Veneta beige"),
        ("#000000", "Bottega Veneta black"),
        ("#000000", "BP Studio black"),
        ("#666666", "BP Studio gray"),
        ("#ffffff", "BP Studio white"),
        ("#0066a1", "Bracco blue"),
        ("#00a79d", "Bracco teal"),
        ("#6e6e6e", "Bracco gray"),
        ("#ffffff", "Bracco white"),
        ("#e10600", "Bravo red"),
        ("#ffd100", "Bravo yellow"),
        ("#000000", "Bravo black"),
        ("#f36f21", "Bremach orange"),
        ("#6e6e6e", "Bremach gray"),
        ("#000000", "Bremach black"),
        ("#e10600", "Brembo red"),
        ("#000000", "Brembo black"),
        ("#ffffff", "Brembo white"),
        ("#003a70", "Breton blue"),
        ("#6e6e6e", "Breton gray"),
        ("#000000", "Breton black"),
        ("#7a0019", "Brioni burgundy"),
        ("#c8a45a", "Brioni gold"),
        ("#000000", "Brioni black"),
        ("#f36f21", "Brionvega orange"),
        ("#000000", "Brionvega black"),
        ("#6e6e6e", "Brionvega gray"),
        ("#1b75bc", "Brondi blue"),
        ("#000000", "Brondi black"),
        ("#ffffff", "Brondi white"),
        ("#e10600", "Brumm red"),
        ("#ffd100", "Brumm yellow"),
        ("#000000", "Brumm black"),
        ("#b7a99a", "Brunello Cucinelli taupe"),
        ("#8e8a86", "Brunello Cucinelli gray"),
        ("#6b4e3d", "Brunello Cucinelli brown"),
        ("#ffffff", "Brunello Cucinelli white"),
        ("#ff6f00", "Bticino orange"),
        ("#6e6e6e", "Bticino gray"),
        ("#000000", "Bticino black"),
        ("#007a3d", "Buitoni green"),
        ("#e41c23", "Buitoni red"),
        ("#f2e6c9", "Buitoni beige"),
        ("#d4af37", "Bulgari gold"),
        ("#000000", "Bulgari black"),
        ("#ffffff", "Bulgari white"),
        ("#e10600", "Cagiva red"),
        ("#000000", "Cagiva black"),
        ("#c0c0c0", "Cagiva silver"),
        ("#004c99", "CAMP blue"),
        ("#00aeef", "CAMP light blue"),
        ("#000000", "CAMP black"),
        ("#ffffff", "CAMP white"),
        ("#004c99", "Campagnolo blue"),
        ("#c0c0c0", "Campagnolo silver"),
        ("#000000", "Campagnolo black"),
        ("#ffffff", "Campagnolo white"),
        ("#a6192e", "Campari red"),
        ("#d4af37", "Campari gold"),
        ("#ffffff", "Campari white"),
        ("#00aeef", "Candy light blue"),
        ("#0099cc", "Candy blue"),
        ("#ffffff", "Candy white"),
        ("#003a70", "Cantiere Navale Visentini navy"),
        ("#6e6e6e", "Cantiere Navale Visentini gray"),
        ("#002b5b", "CRDA navy"),
        ("#6e6e6e", "CRDA gray"),
        ("#7a0019", "Lungarotti burgundy"),
        ("#c8a45a", "Lungarotti gold"),
        ("#ffffff", "Lungarotti white"),
        ("#003e7e", "Caproni blue"),
        ("#c0c0c0", "Caproni silver"),
        ("#000000", "Caproni black"),
        ("#000000", "Caraceni black"),
        ("#c8a45a", "Caraceni gold"),
        ("#f2e8d5", "Caraceni ivory"),
        ("#007a3d", "Carapelli green"),
        ("#c8a45a", "Carapelli gold"),
        ("#000000", "Carapelli black"),
        ("#00a3e0", "Carpigiani blue"),
        ("#003a70", "Carpigiani navy"),
        ("#ffffff", "Carpigiani white"),
        ("#e10600", "Carraro Agritalia red"),
        ("#000000", "Carraro Agritalia black"),
        ("#c0c0c0", "Carrozzeria Colli silver"),
        ("#000000", "Carrozzeria Colli black"),
        ("#f36f21", "Carrozzeria Fissore orange"),
        ("#000000", "Carrozzeria Fissore black"),
        ("#ff6f00", "Ghia orange"),
        ("#003a70", "Ghia blue"),
        ("#c0c0c0", "Ghia silver"),
        ("#e30613", "Cassina red"),
        ("#000000", "Cassina black"),
        ("#ffffff", "Cassina white"),
        ("#6b4e3d", "Castagnari mahogany"),
        ("#c8a45a", "Castagnari gold"),
        ("#000000", "Castagnari black"),
        ("#c8a45a", "Roberto Cavalli gold"),
        ("#000000", "Roberto Cavalli black"),
        ("#003a70", "Cecomp blue"),
        ("#6e6e6e", "Cecomp gray"),
        ("#7a0019", "Ceirano Fabbrica maroon"),
        ("#000000", "Ceirano Fabbrica black"),
        ("#7a0019", "Ceirano maroon"),
        ("#c0c0c0", "Ceirano silver"),
        ("#00a3e0", "Cementir blue"),
        ("#6e6e6e", "Cementir gray"),
        ("#e10600", "Ceriani red"),
        ("#c0c0c0", "Ceriani silver"),
        ("#000000", "Ceriani black"),
        ("#c8102e", "Cetra red"),
        ("#000000", "Cetra black"),
        ("#f2e6c9", "Cetra parchment"),
        ("#e10600", "Chiappa red"),
        ("#000000", "Chiappa black"),
        ("#ffffff", "Chiappa white"),
        ("#b22222", "Chiribiri red"),
        ("#000000", "Chiribiri black"),
        ("#e10600", "Cimbali red"),
        ("#6e6e6e", "Cimbali gray"),
        ("#ffffff", "Cimbali white"),
        ("#ffd100", "Cinelli yellow"),
        ("#003a70", "Cinelli blue"),
        ("#e10600", "Cinelli red"),
        ("#000000", "Cinelli black"),
        ("#e30613", "Cinemeccanica red"),
        ("#000000", "Cinemeccanica black"),
        ("#e41c23", "Cinzano red"),
        ("#003a70", "Cinzano blue"),
        ("#ffffff", "Cinzano white"),
        ("#002b5b", "Cirio navy"),
        ("#d4af37", "Cirio gold"),
        ("#ffffff", "Cirio white"),
        ("#c8102e", "Cisitalia red"),
        ("#c0c0c0", "Cisitalia silver"),
        ("#000000", "Cisitalia black"),
        ("#b22222", "Clément red"),
        ("#003a70", "Clément blue"),
        ("#e10600", "CNH Industrial red"),
        ("#000000", "CNH Industrial black"),
        ("#6e6e6e", "CNH Industrial gray"),
        ("#001f3f", "Codecasa deep navy"),
        ("#c0c0c0", "Codecasa silver"),
        ("#ffffff", "Codecasa white"),
        ("#000000", "Coin black"),
        ("#6e6e6e", "Coin gray"),
        ("#000000", "Colnago black"),
        ("#ffffff", "Colnago white"),
        ("#e10600", "Colnago red"),
        ("#d71920", "Columbus red"),
        ("#003a70", "Columbus blue"),
        ("#ffffff", "Columbus white"),
        ("#003399", "Comau blue"),
        ("#000000", "Comau black"),
        ("#000000", "Comus black"),
        ("#6e6e6e", "Comus gray"),
        ("#f7a400", "Conad orange"),
        ("#e10600", "Conad red"),
        ("#ffd100", "Conad yellow"),
        ("#e10600", "Coop red"),
        ("#ffffff", "Coop white"),
        ("#007a3d", "Coppola green"),
        ("#e41c23", "Coppola red"),
        ("#ffffff", "Coppola white"),
        ("#c8a45a", "Cosmi gold"),
        ("#6b4e3d", "Cosmi walnut brown"),
        ("#000000", "Cosmi black"),
        ("#000000", "Costume National black"),
        ("#ffffff", "Costume National white"),
        ("#f36f21", "Crumar orange"),
        ("#000000", "Crumar black"),
        ("#7a0019", "Cugini Randi maroon"),
        ("#c0c0c0", "Cugini Randi silver"),
        ("#0a2342", "Custom Line navy"),
        ("#c0c0c0", "Custom Line silver"),
        ("#ffffff", "Custom Line white"),
        ("#e10600", "CVS Ferrari red"),
        ("#000000", "CVS Ferrari black"),
        ("#e10600", "Dainese red"),
        ("#000000", "Dainese black"),
        ("#ffffff", "Dainese white"),
        ("#e10600", "Dal Negro red"),
        ("#000000", "Dal Negro black"),
        ("#d4af37", "Dal Negro gold"),
        ("#d4af37", "Damiani gold"),
        ("#000000", "Damiani black"),
        ("#f2e8d5", "Damiani ivory"),
        ("#003a70", "Danieli blue"),
        ("#6e6e6e", "Danieli gray"),
        ("#000000", "Danieli black"),
        ("#003a70", "Danieli Automation blue"),
        ("#6e6e6e", "Danieli Automation gray"),
        ("#000000", "Danieli Automation black"),
        ("#0c3c78", "De Cecco blue"),
        ("#ffd100", "De Cecco yellow"),
        ("#ffffff", "De Cecco white"),
        ("#e10600", "De Rosa red"),
        ("#000000", "De Rosa black"),
        ("#ffffff", "De Rosa white"),
        ("#003a70", "De Simon navy"),
        ("#c0c0c0", "De Simon silver"),
        ("#ffffff", "De Simon white"),
        ("#00a3e0", "De Tomaso light blue"),
        ("#003a70", "De Tomaso blue"),
        ("#ffffff", "De Tomaso white"),
        ("#000000", "De Tomaso black"),
        ("#003a70", "De'Longhi blue"),
        ("#ffffff", "De'Longhi white"),
        ("#e10600", "Dell'Orto red"),
        ("#000000", "Dell'Orto black"),
        ("#ffffff", "Dell'Orto white"),
        ("#7a0019", "Della Ferrera maroon"),
        ("#c0c0c0", "Della Ferrera silver"),
        ("#000000", "Della Ferrera black"),
        ("#f36f21", "Di Blasi orange"),
        ("#003a70", "Di Blasi blue"),
        ("#000000", "Di Blasi black"),
        ("#ffd100", "Diadora yellow"),
        ("#009639", "Diadora green"),
        ("#000000", "Diadora black"),
        ("#003e7e", "Diatto blue"),
        ("#c0c0c0", "Diatto silver"),
        ("#000000", "Diatto black"),
        ("#e2231a", "Diesel red"),
        ("#000000", "Diesel black"),
        ("#ffffff", "Diesel white"),
        ("#e41c23", "Divella red"),
        ("#ffd100", "Divella yellow"),
        ("#004c99", "Divella blue"),
        ("#ffffff", "Divella white"),
        ("#000000", "Dolce & Gabbana black"),
        ("#ffffff", "Dolce & Gabbana white"),
        ("#d4af37", "Dolce & Gabbana gold"),
        ("#e30a17", "Ducati red"),
        ("#000000", "Ducati black"),
        ("#ffffff", "Ducati white"),
        ("#003a70", "Ducati Energia blue"),
        ("#e10600", "Ducati Energia red"),
        ("#000000", "Ducati Energia black"),
        ("#003a70", "Eca Sindel blue"),
        ("#6e6e6e", "Eca Sindel gray"),
        ("#00a651", "Edison green"),
        ("#003a70", "Edison blue"),
        ("#f37021", "Edison orange"),
        ("#00a651", "Eko green"),
        ("#000000", "Eko black"),
        ("#ffffff", "Eko white"),
        ("#000000", "Elena Mirò black"),
        ("#b7a99a", "Elena Mirò taupe"),
        ("#ffffff", "Elena Mirò white"),
        ("#ff6f00", "Ellesse orange"),
        ("#e10600", "Ellesse red"),
        ("#003a70", "Ellesse navy"),
        ("#ffffff", "Ellesse white"),
        ("#ff6f00", "Enel orange"),
        ("#ff3a5c", "Enel magenta"),
        ("#00a3e0", "Enel blue"),
        ("#ffd100", "Eni yellow"),
        ("#000000", "Eni black"),
        ("#e21d39", "Eni red"),
        ("#00a651", "ERG green"),
        ("#003399", "ERG blue"),
        ("#ffffff", "ERG white"),
        ("#2f2f2f", "Zegna charcoal"),
        ("#8e8a86", "Zegna gray"),
        ("#000000", "Zegna black"),
        ("#ffcc00", "Erreà yellow"),
        ("#000000", "Erreà black"),
        ("#ffffff", "Erreà white"),
        ("#0057b8", "Eurotech blue"),
        ("#6e6e6e", "Eurotech gray"),
        ("#000000", "Extè black"),
        ("#ffffff", "Extè white"),
        ("#e10600", "Fabbri Group red"),
        ("#000000", "Fabbri Group black"),
        ("#6e6e6e", "Fabbri Group gray"),
        ("#003a70", "Pomilio navy"),
        ("#c0c0c0", "Pomilio silver"),
        ("#002b5b", "FLAG navy"),
        ("#c8102e", "FLAG red"),
        ("#007a3d", "Fabio Perini green"),
        ("#003a70", "Fabio Perini blue"),
        ("#f36f21", "Facchini orange"),
        ("#003a70", "Facchini blue"),
        ("#003a70", "Falc blue"),
        ("#e10600", "Falc red"),
        ("#003a70", "Falck blue"),
        ("#008c45", "Falck green"),
        ("#6e6e6e", "Falck gray"),
        ("#c8a45a", "FAMARS gold"),
        ("#6b4e3d", "FAMARS walnut"),
        ("#000000", "FAMARS black"),
        ("#e10600", "Fantic red"),
        ("#000000", "Fantic black"),
        ("#ffffff", "Fantic white"),
        ("#00a651", "Farfisa green"),
        ("#000000", "Farfisa black"),
        ("#ffffff", "Farfisa white"),
        ("#ffcc00", "Fastweb yellow"),
        ("#000000", "Fastweb black"),
        ("#c8a45a", "Fazioli gold"),
        ("#000000", "Fazioli black"),
        ("#003a70", "Fedrigoni blue"),
        ("#6e6e6e", "Fedrigoni gray"),
        ("#000000", "Fedrigoni black"),
        ("#f9e300", "Fendi yellow"),
        ("#000000", "Fendi black"),
        ("#009688", "Ferrania teal"),
        ("#000000", "Ferrania black"),
        ("#d40000", "Ferrari red"),
        ("#ffeb00", "Ferrari yellow"),
        ("#000000", "Ferrari black"),
        ("#e10600", "Ferrari Belotti red"),
        ("#000000", "Ferrari Belotti black"),
        ("#000000", "Gianfranco Ferré black"),
        ("#d4af37", "Gianfranco Ferré gold"),
        ("#d4af37", "Ferrero gold"),
        ("#603a18", "Ferrero brown"),
        ("#e41c23", "Ferrero red"),
        ("#001f3f", "Ferretti Group navy"),
        ("#c0c0c0", "Ferretti Group silver"),
        ("#ffffff", "Ferretti Group white"),
        ("#d61a1f", "FS Italiane red"),
        ("#6e6e6e", "FS Italiane gray"),
        ("#008c45", "FS Italiane green"),
        ("#a1000e", "Fiat red"),
        ("#c0c0c0", "Fiat silver"),
        ("#000000", "Fiat black"),
        ("#003a70", "Fiat Ferroviaria blue"),
        ("#6e6e6e", "Fiat Ferroviaria gray"),
        ("#ffd100", "Fiat Industrial yellow"),
        ("#003399", "Fiat Industrial blue"),
        ("#003399", "FPT blue"),
        ("#6e6e6e", "FPT gray"),
        ("#a1000e", "Fiat group red"),
        ("#000000", "Fiat group black"),
        ("#002d72", "Fila navy"),
        ("#e2231a", "Fila red"),
        ("#ffffff", "Fila white"),
        ("#e10600", "Filippi Boats red"),
        ("#000000", "Filippi Boats black"),
        ("#ffffff", "Filippi Boats white"),
        ("#001f3f", "Fincantieri navy"),
        ("#6e6e6e", "Fincantieri gray"),
        ("#b22222", "Fiocchi red"),
        ("#c8a45a", "Fiocchi gold"),
        ("#000000", "Fiocchi black"),
        ("#000000", "Fiol black"),
        ("#ffffff", "Fiol white"),
        ("#d4af37", "Fiol gold"),
        ("#c8102e", "Fioravanti red"),
        ("#6e6e6e", "Fioravanti gray"),
        ("#ff7f9f", "Fiorucci pink"),
        ("#e41c23", "Fiorucci red"),
        ("#000000", "Fiorucci black"),
        ("#e10600", "Flexform red"),
        ("#000000", "Flexform black"),
        ("#6e6e6e", "Flexform gray"),
        ("#e10600", "Fly Products red"),
        ("#000000", "Fly Products black"),
        ("#003a70", "Fly Synthesis blue"),
        ("#00a3e0", "Fly Synthesis light blue"),
        ("#e10600", "Flying Legend red"),
        ("#003a70", "Flying Legend blue"),
        ("#000000", "Fondmetal black"),
        ("#c0c0c0", "Fondmetal silver"),
        ("#ffd100", "Fondmetal yellow"),
        ("#006241", "Franchi green"),
        ("#c8a45a", "Franchi gold"),
        ("#000000", "Franchi black"),
        ("#003a70", "Franco Tosi blue"),
        ("#6e6e6e", "Franco Tosi gray"),
        ("#007a7a", "Fratelli Branca teal"),
        ("#d4af37", "Fratelli Branca gold"),
        ("#6b4e3d", "Fratelli Branca brown"),
        ("#7a0019", "Fratelli Ceirano maroon"),
        ("#000000", "Fratelli Ceirano black"),
        ("#003a70", "Fratelli Nardi blue"),
        ("#c0c0c0", "Fratelli Nardi silver"),
        ("#e10600", "Frera red"),
        ("#000000", "Frera black"),
        ("#b7a99a", "Frette taupe"),
        ("#f2e8d5", "Frette ivory"),
        ("#000000", "Frette black"),
        ("#e10600", "Fulcrum red"),
        ("#000000", "Fulcrum black"),
        ("#ffffff", "Fulcrum white"),
        ("#e10600", "Fulgor red"),
        ("#000000", "Fulgor black"),
        ("#c0c0c0", "Fulgor silver"),
        ("#d40000", "Ferrari red"),
        ("#ffeb00", "Ferrari yellow"),
        ("#000000", "Ferrari black"),
        ("#f7d417", "Lamborghini yellow"),
        ("#000000", "Lamborghini black"),
        ("#a1000e", "Fiat red"),
        ("#002c6c", "Lancia blue"),
        ("#0f204b", "Maserati blue"),
        ("#e30a17", "Ducati red"),
        ("#00a3e0", "Piaggio blue"),
        ("#7ec0a9", "Vespa celeste"),
        ("#003399", "Sparco blue"),
        ("#e10600", "Brembo red"),
        ("#003a70", "Magneti Marelli blue"),
        ("#ffdd00", "Magneti Marelli yellow"),
        ("#ed1c24", "Pirelli red"),
        ("#ffdd00", "Pirelli yellow"),
        ("#153b74", "Pininfarina blue"),
        ("#7d7f83", "Pagani titanium gray"),
        ("#00529f", "Alfa Romeo Racing blue"),
        ("#0b9444", "Gucci green"),
        ("#b1272c", "Gucci red"),
        ("#ebd8b7", "Gucci beige"),
        ("#000000", "Prada black"),
        ("#ffffff", "Prada white"),
        ("#c9b037", "Versace gold"),
        ("#000000", "Versace black"),
        ("#f9e300", "Fendi yellow"),
        ("#000000", "Fendi black"),
        ("#d4af37", "Bvlgari gold"),
        ("#000000", "Bvlgari black"),
        ("#001e3c", "Moncler navy"),
        ("#e10a0a", "Moncler red"),
        ("#8c8c8c", "Giorgio Armani gray"),
        ("#000000", "Dolce & Gabbana black"),
        ("#a3d9a5", "Bianchi celeste"),
        ("#004c99", "Barilla blue"),
        ("#e41c23", "Barilla red"),
        ("#1a2343", "Lavazza blue"),
        ("#ffffff", "Lavazza white"),
        ("#c3002f", "Illy red"),
        ("#ffffff", "Illy white"),
        ("#5c2e00", "Nutella brown"),
        ("#e41c23", "Nutella red"),
        ("#d4af37", "Ferrero Rocher gold"),
        ("#603a18", "Ferrero Rocher chocolate brown"),
        ("#ff6900", "Kinder orange"),
        ("#e41c23", "Kinder red"),
        ("#004a8f", "Parmalat blue"),
        ("#0f5fa6", "San Pellegrino blue"),
        ("#e2231a", "San Pellegrino red star"),
        ("#e41c23", "Peroni red"),
        ("#d4af37", "Peroni gold"),
        ("#e41f26", "Martini red"),
        ("#000000", "Martini black"),
        ("#a81c07", "Campari red"),
        ("#f56400", "Aperol orange"),
        ("#0c3c78", "De Cecco blue"),
        ("#ffd100", "De Cecco yellow"),
        ("#6b4e3d", "Eataly brown"),
        ("#ff6f00", "Enel orange"),
        ("#0c4da2", "STMicroelectronics blue"),
        ("#e3000b", "Olivetti red"),
        ("#004c99", "TIM blue"),
        ("#e10600", "TIM red"),
        ("#ffec00", "Poste Italiane yellow"),
        ("#22409a", "Poste Italiane blue"),
        ("#e31837", "UniCredit red"),
        ("#00724a", "Intesa Sanpaolo green"),
        ("#f37021", "Intesa Sanpaolo orange"),
        ("#d6132a", "Trenitalia red"),
        ("#008c45", "Trenitalia green"),
        ("#0033a0", "RAI blue"),
        ("#003a70", "De'Longhi blue"),
        ("#1d4f91", "Luxottica blue"),
        ("#e41c23", "Ray-Ban red"),
    ];
    raw.iter().map(|&(h, n)| (HexCode::new(h), ColorName::new_full(n, Entity::Brand, Origin::ItalianBrands, NameOrder::Name))).collect()
}

fn kelvin_colors_unordered() -> Vec<(HexCode, ColorName)> {
    let raw: &[(&'static str, &'static str)] = &[
        ("#FFFFFF", "Skylight 20000K Very Pale Blue-White"),
        ("#050573", "Skylight 19500K Deep Navy Blue"),
        ("#0D0DD2", "Skylight 18500K Royal Blue"),
        ("#1313FF", "Skylight 16500K Pure Blue"),
        ("#4242FC", "Shade 8000K Bright Blue"),
        ("#6B6BFB", "Shade→Monitor 7500K Cornflower Blue"),
        ("#8989FC", "Monitors 6500K Lavender Blue"),
        ("#C4C4FD", "Noon Sun 5600K Pale Periwinkle"),
        ("#FEFDF0", "Fluorescent 4300K Soft White"),
        ("#FBF695", "Tungsten Halogen 3200K Light Yellow"),
        ("#F7EE35", "Halogen Transition 3500K Lemon Yellow"),
        ("#F8E213", "Incandescent 2800K Golden Yellow"),
        ("#FE5C0D", "Candle 1800K Orange Red"),
        ("#F8170E", "Candle→Embers 1500K Bright Red"),
        ("#BA0709", "Embers 800K Dark Red"),
        ("#600708", "Deep Embers 700K Blackish Red"),
        ("#1212FF", "Skylight 16473K Bright Blue"),
        ("#2527FF", "Skylight 16081K Bright Blue"),
        ("#3C3DFE", "Skylight 15689K Bright Blue"),
        ("#5F5FFA", "Skylight 14906K Bright Blue"),
        ("#6969FF", "Skylight 14514K Light Blue"),
        ("#7777FE", "Skylight 14122K Light Blue"),
        ("#8B8AF9", "Skylight 13730K Light Blue"),
        ("#9696FB", "Skylight 13338K Light Blue"),
        ("#A4A3FE", "Skylight 12946K Pale Blue"),
        ("#ACADFC", "Skylight 12555K Pale Blue"),
        ("#B7B7FD", "Skylight 12163K Pale Blue"),
        ("#C1C0FE", "Skylight 11771K Pale Blue"),
        ("#CFD1FD", "Skylight 11379K Pale Blue"),
        ("#E2E2FE", "Skylight 10987K Pale Blue"),
        ("#F1F0FF", "Skylight 10595K Pale Blue"),
        ("#FCFCFE", "Daylight 10204K Very Pale Blue"),
        ("#FEFEEF", "Daylight 9812K Very Pale Yellow"),
        ("#FEFACB", "Daylight 9420K Pale Yellow"),
        ("#FCF6A0", "Daylight 9028K Pale Orange"),
        ("#FAF26C", "Daylight 8636K Light Orange"),
        ("#F9F04D", "Daylight 8244K Light Yellow"),
        ("#F9D51E", "Noon Sun 6285K Golden Yellow"),
        ("#FDCB0F", "Noon Sun 5893K Golden Yellow"),
        ("#FDC608", "Fluorescent 5502K Warm Yellow"),
        ("#FEB707", "Fluorescent 5110K Yellow-Orange"),
        ("#FE9C09", "Fluorescent 4718K Orange"),
        ("#FD801A", "Halogen 4326K Bright Orange"),
        ("#FD6B01", "Halogen 3934K Orange-Red"),
        ("#FF4200", "Halogen 3542K Bright Red-Orange"),
        ("#FF1C02", "Incandescent 3151K Bright Red"),
        ("#FD0600", "Incandescent 2759K Bright Red"),
        ("#EA0000", "Candle 2367K Bright Red"),
        ("#CB0000", "Candle 1975K Vivid Red"),
        ("#A10200", "Candle 1583K Red"),
        ("#760001", "Embers 1191K Deep Red"),
        ("#320100", "Embers 800K Dark Red"),
    ];
    raw.iter().map(|&(h, n)| (HexCode::new(h), ColorName::new_full(n, Entity::Temperature, Origin::KelvinColors, NameOrder::Kelvin))).collect()
}

fn registry() -> Registry {
    Registry::new(vec![
        ColorCatalog { name: "CSS", origin: Origin::Css, data: css_colors() },
        ColorCatalog { name: "XKCD", origin: Origin::XKCD, data: xkcd_colors() },
        ColorCatalog { name: "Persian", origin: Origin::Persian, data: persian_colors() },
        ColorCatalog {
            name: "Italian Brands",
            origin: Origin::ItalianBrands,
            data: italian_brand_colors(),
        },
        ColorCatalog {
            name: "Kelvin Colors",
            origin: Origin::KelvinColors,
            data: sort_by_temperature(&kelvin_colors_unordered()),
        },
    ])
}

fn names(hits: &[(HexCode, ColorName)]) -> Vec<&'static str> {
    hits.iter().map(|(_, n)| n.as_str()).collect()
}

// ---------------------------------------------------------------------------
// The tests of the catalogue and of the search
// ---------------------------------------------------------------------------

#[test]
fn kelvin_colors_sorted() {
    let kelvin_colors = sort_by_temperature(&kelvin_colors_unordered());
    println!("First 10 Kelvin colors:");
    for (i, (hex, name)) in kelvin_colors.iter().take(10).enumerate() {
        println!("{}: {} - {}", i + 1, name.as_str(), hex.as_str());
    }

    // Check that first color has highest temperature
    let first_name = kelvin_colors[0].1.as_str();
    println!("First color: {}", first_name);
    assert!(first_name.contains("20000K"));
}

#[test]
fn test_italian_brands_search() {
    let reg = registry();
    println!("Testing Italian Brands search...");

    // Test direct access to Italian Brands colors
    let slice = origin_slice(&reg, Origin::ItalianBrands);
    println!("Total Italian Brands colors: {}", slice.len());

    // Test single character search "a"
    let results_a = search_in_origin(&reg, Origin::ItalianBrands, "a", TokenMode::Any);
    println!("Query 'a': {} results", results_a.len());
    for (i, (hex, name)) in results_a.iter().take(3).enumerate() {
        println!("  {}: {} - {}", i + 1, name.as_str(), hex.as_str());
    }

    // Test two character search "as"
    let results_as = search_in_origin(&reg, Origin::ItalianBrands, "as", TokenMode::Any);
    println!("Query 'as': {} results", results_as.len());
    for (i, (hex, name)) in results_as.iter().take(3).enumerate() {
        println!("  {}: {} - {}", i + 1, name.as_str(), hex.as_str());
    }

    // Manual check of colors containing 'a'
    let matching_a_count = slice
        .iter()
        .filter(|(_, name)| name.as_str().to_lowercase().contains("a"))
        .count();
    let matching_a_sample: Vec<_> = slice
        .iter()
        .filter(|(_, name)| name.as_str().to_lowercase().contains("a"))
        .take(5)
        .collect();
    println!(
        "Manual search - colors containing 'a': {} total (showing first 5)",
        matching_a_count
    );
    for (i, (hex, name)) in matching_a_sample.iter().enumerate() {
        println!("  {}: {} - {}", i + 1, name.as_str(), hex.as_str());
    }

    assert!(slice.len() > 0, "Italian Brands should have colors");
    assert!(matching_a_count > 0, "Should have colors containing 'a'");

    // The search should return the same results as manual filtering
    assert_eq!(
        results_a.len(),
        matching_a_count,
        "Search for 'a' should return same number as manual filter"
    );
}

#[test]
fn test_get_closest_color_name_from_rgb() {
    let reg = registry();
    // Test with known colors
    let red = Rgb { r: 255, g: 0, b: 0 };
    let closest_to_red = get_closest_color_name_from_rgb(&reg, red);
    assert!(closest_to_red.is_some(), "Should find a closest color name for pure red");
    println!("Closest to red RGB(255,0,0): {:?}", closest_to_red);

    let blue = Rgb { r: 0, g: 0, b: 255 };
    let closest_to_blue = get_closest_color_name_from_rgb(&reg, blue);
    assert!(closest_to_blue.is_some(), "Should find a closest color name for pure blue");
    println!("Closest to blue RGB(0,0,255): {:?}", closest_to_blue);

    let white = Rgb { r: 255, g: 255, b: 255 };
    let closest_to_white = get_closest_color_name_from_rgb(&reg, white);
    assert!(closest_to_white.is_some(), "Should find a closest color name for white");
    println!("Closest to white RGB(255,255,255): {:?}", closest_to_white);

    // Test with a specific color that should match closely
    let tomato = Rgb { r: 255, g: 99, b: 71 }; // Close to CSS tomato
    let closest_to_tomato = get_closest_color_name_from_rgb(&reg, tomato);
    assert!(
        closest_to_tomato.is_some(),
        "Should find a closest color name for tomato-like color"
    );
    println!("Closest to tomato RGB(255,99,71): {:?}", closest_to_tomato);
}

#[test]
fn test_get_closest_color_name_from_hex() {
    let reg = registry();
    // Test with valid hex colors
    let closest_red = get_closest_color_name_from_hex(&reg, "#FF0000");
    assert!(closest_red.is_some(), "Should find closest color for red hex");
    println!("Closest to #FF0000: {:?}", closest_red);

    let closest_blue = get_closest_color_name_from_hex(&reg, "#0000FF");
    assert!(closest_blue.is_some(), "Should find closest color for blue hex");
    println!("Closest to #0000FF: {:?}", closest_blue);

    // Test with lowercase hex
    let closest_green = get_closest_color_name_from_hex(&reg, "#00ff00");
    assert!(closest_green.is_some(), "Should find closest color for lowercase green hex");
    println!("Closest to #00ff00: {:?}", closest_green);

    // Test with short hex format - first normalize it
    let normalized_short = normalize_hex("#f00").unwrap();
    let closest_short = get_closest_color_name_from_hex(&reg, &normalized_short);
    assert!(closest_short.is_some(), "Should find closest color for normalized short hex");
    println!("Closest to #f00 (normalized to {}): {:?}", normalized_short, closest_short);

    // Test with invalid hex
    let closest_invalid = get_closest_color_name_from_hex(&reg, "invalid");
    assert!(closest_invalid.is_none(), "Should return None for invalid hex");

    let closest_no_hash = get_closest_color_name_from_hex(&reg, "FF0000");
    assert!(closest_no_hash.is_none(), "Should return None for hex without #");
}

#[test]
fn test_search_colors() {
    let reg = registry();
    // Test basic search
    let red_results = search_colors(&reg, "red", TokenMode::Any);
    assert!(!red_results.is_empty(), "Should find colors containing 'red'");
    println!("Found {} colors containing 'red'", red_results.len());

    // Verify results contain the search term
    for (hex, name) in red_results.iter().take(3) {
        let name_str = name.as_str().to_lowercase();
        assert!(name_str.contains("red"), "Color name '{}' should contain 'red'", name.as_str());
        println!("  {} - {}", name.as_str(), hex.as_str());
    }

    // Test search with no results (very unlikely term)
    let rare_results = search_colors(&reg, "xyzzyx", TokenMode::Any);
    println!("Found {} colors containing 'xyzzyx'", rare_results.len());
    // We don't assert empty since some color names might surprisingly contain this

    // Test search with common term
    let blue_results = search_colors(&reg, "blue", TokenMode::Any);
    assert!(!blue_results.is_empty(), "Should find colors containing 'blue'");
    assert!(blue_results.len() >= 5, "Should find at least 5 blue colors");
    println!("Found {} colors containing 'blue'", blue_results.len());

    // Test TokenMode::All (all words must match)
    let dark_blue_results = search_colors(&reg, "dark blue", TokenMode::All);
    println!("Found {} colors containing both 'dark' and 'blue'", dark_blue_results.len());
    // Should be fewer results than just "blue" since both words must match
}

#[test]
fn test_library_integration() {
    let reg = registry();
    // Test the complete workflow: hex -> rgb -> closest name
    let test_hex = "#FF6347"; // CSS tomato

    // Convert hex to RGB
    let rgb = hex_to_rgb(test_hex).expect("Should convert valid hex to RGB");
    assert_eq!(rgb.r, 255);
    assert_eq!(rgb.g, 99);
    assert_eq!(rgb.b, 71);

    // Convert RGB back to hex
    let hex_back = rgb_to_hex(rgb);
    assert_eq!(hex_back, test_hex);

    // Find closest color name
    let closest_name = get_closest_color_name_from_rgb(&reg, rgb);
    assert!(closest_name.is_some(), "Should find a closest color name");
    println!("Hex {} -> RGB {:?} -> Closest name: {:?}", test_hex, rgb, closest_name);

    // Test search functionality
    if let Some(name) = closest_name {
        let search_results = search_colors(&reg, &name[..3], TokenMode::Any); // Search with first 3 chars
        assert!(
            !search_results.is_empty(),
            "Should find colors when searching with part of the closest name"
        );
    }
}

#[test]
fn test_hex_utilities_comprehensive() {
    let reg = registry();
    // Test normalize_hex with various formats
    assert_eq!(normalize_hex("#f00").unwrap(), "#FF0000");
    assert_eq!(normalize_hex("#FF0000").unwrap(), "#FF0000");
    assert_eq!(normalize_hex("#ff0000").unwrap(), "#FF0000");
    assert_eq!(normalize_hex("#FF0000AA").unwrap(), "#FF0000"); // strips alpha

    // Test error cases
    assert!(normalize_hex("FF0000").is_err()); // missing #
    assert!(normalize_hex("#FF00").is_err()); // invalid length
    assert!(normalize_hex("#GG0000").is_err()); // invalid hex chars

    // Test split and combine
    let (r, g, b) = split_hex("#123456").unwrap();
    assert_eq!(r.as_str(), "12");
    assert_eq!(g.as_str(), "34");
    assert_eq!(b.as_str(), "56");

    let combined = combine_hex(&r, &g, &b);
    assert_eq!(combined, "#123456");

    // Test hex name lookups
    if let Some(tomato_hex) = hex_for_name(&reg, "tomato") {
        println!("Tomato hex: {}", tomato_hex);
        let name_back = name_for_hex(&reg, tomato_hex.to_string());
        assert!(name_back.is_some(), "Should find name for tomato hex");
    }
}

#[test]
fn test_origin_functions() {
    let reg = registry();
    // Test origin_slice function
    let css_colors = origin_slice(&reg, Origin::Css);
    assert!(!css_colors.is_empty(), "CSS colors should not be empty");
    println!("CSS colors count: {}", css_colors.len());

    let xkcd_colors = origin_slice(&reg, Origin::XKCD);
    assert!(!xkcd_colors.is_empty(), "XKCD colors should not be empty");
    println!("XKCD colors count: {}", xkcd_colors.len());

    // Test lookup functions
    if let Some(red_hex) = lookup_by_name(&reg, "red") {
        println!("Red color hex: {}", red_hex);
        assert!(red_hex.starts_with('#'), "Hex should start with #");
    }

    // Test case-insensitive lookup
    let red_ci = lookup_by_name_ci(&reg, "RED");
    let red_lower = lookup_by_name_ci(&reg, "red");
    if red_ci.is_some() && red_lower.is_some() {
        assert_eq!(red_ci, red_lower, "Case-insensitive lookup should return same result");
    }
}

#[test]
fn test_name_hex_lookup_edge_cases() {
    let reg = registry();
    // Test hex_for_name with various cases
    assert!(hex_for_name(&reg, "").is_none());
    assert!(hex_for_name(&reg, "   ").is_none());
    assert!(hex_for_name(&reg, "nonexistentcolor123456789").is_none());

    // Test name_for_hex with various cases
    assert!(name_for_hex(&reg, "".to_string()).is_none());
    assert!(name_for_hex(&reg, "   ".to_string()).is_none());
    assert!(name_for_hex(&reg, "#ZZZZZZ".to_string()).is_none());
    assert!(name_for_hex(&reg, "#123456".to_string()).is_none()); // Valid hex but probably no name

    // Test with whitespace (should be trimmed)
    if let Some(red_hex) = hex_for_name(&reg, "  red  ") {
        assert!(red_hex.starts_with('#'));
        // Try to find name back
        if let Some(name) = name_for_hex(&reg, format!("  {}  ", red_hex)) {
            assert!(!name.is_empty());
        }
    }
}

#[test]
fn test_search_colors_advanced() {
    let reg = registry();
    // Test with empty query
    let _empty_results = search_colors(&reg, "", TokenMode::Any);
    // Empty query should return no results or all results depending on implementation

    // Test with single character
    let single_char = search_colors(&reg, "a", TokenMode::Any);
    assert!(!single_char.is_empty(), "Should find colors containing 'a'");

    // Test TokenMode::All vs TokenMode::Any
    let any_results = search_colors(&reg, "dark blue", TokenMode::Any);
    let all_results = search_colors(&reg, "dark blue", TokenMode::All);

    // TokenMode::Any should find colors with either word
    // TokenMode::All should find colors with both words
    assert!(
        any_results.len() >= all_results.len(),
        "Any mode should return at least as many results as All mode"
    );

    // Test case sensitivity
    let lower_results = search_colors(&reg, "red", TokenMode::Any);
    let upper_results = search_colors(&reg, "RED", TokenMode::Any);
    assert_eq!(lower_results.len(), upper_results.len(), "Search should be case-insensitive");

    // Test special characters and numbers
    let numeric_results = search_colors(&reg, "1", TokenMode::Any);
    println!("Colors containing '1': {}", numeric_results.len());

    let special_results = search_colors(&reg, "-", TokenMode::Any);
    println!("Colors containing '-': {}", special_results.len());
}

// ---------------------------------------------------------------------------
// Scenarios
// ---------------------------------------------------------------------------

#[test]
fn css_red_is_found_first() {
    let reg = registry();
    let hits = search_in_origin(&reg, Origin::Css, "red", TokenMode::Any);
    assert_eq!(hits.len(), 1);
    assert_eq!(hits[0].0.as_str(), "#FF0000");
    assert_eq!(hits[0].1.as_str(), "red");
}

#[test]
fn red_in_all_origins_ranks_exact_matches_by_origin() {
    let reg = registry();
    let hits = search_in_origin(&reg, Origin::All, "red", TokenMode::Any);
    let found = names(&hits);
    // exact matches first, CSS before XKCD, then by catalogue and name
    assert_eq!(&found[..3], &["red", "red", "dark red"]);
    assert_eq!(hits[0].0.as_str(), "#FF0000");
    assert_eq!(hits[1].0.as_str(), "#E50000");
    for n in &found {
        assert!(tokenize_lc(n).contains(&"red".to_string()), "{} has no token red", n);
    }
}

#[test]
fn dark_blue_in_mode_all_is_the_intersection() {
    let reg = registry();
    let both = search_in_origin(&reg, Origin::All, "dark blue", TokenMode::All);
    let dark = search_in_origin(&reg, Origin::All, "dark", TokenMode::All);
    let blue = search_in_origin(&reg, Origin::All, "blue", TokenMode::All);
    assert!(!both.is_empty());
    for (h, n) in &both {
        let toks = tokenize_lc(n.as_str());
        assert!(toks.contains(&"dark".to_string()) && toks.contains(&"blue".to_string()));
        assert!(dark.contains(&(*h, *n)));
        assert!(blue.contains(&(*h, *n)));
    }
    // the intersection, no less
    for e in &dark {
        if blue.contains(e) {
            assert!(both.contains(e));
        }
    }
    let found = names(&both);
    assert_eq!(found, vec!["dark blue", "dark blue green"]);
    // darkblue is one token, neither dark nor blue
    assert!(!found.contains(&"darkblue"));
    assert!(!found.contains(&"dark red"));
    assert!(!found.contains(&"sky blue"));
}

#[test]
fn dark_blue_in_mode_any_is_the_union() {
    let reg = registry();
    let both = search_in_origin(&reg, Origin::All, "dark blue", TokenMode::Any);
    let all = search_in_origin(&reg, Origin::All, "dark blue", TokenMode::All);
    let dark = search_in_origin(&reg, Origin::All, "dark", TokenMode::Any);
    let blue = search_in_origin(&reg, Origin::All, "blue", TokenMode::Any);
    for e in &all {
        assert!(both.contains(e));
    }
    for e in dark.iter().chain(blue.iter()) {
        assert!(both.contains(e));
    }
    for e in &both {
        assert!(dark.contains(e) || blue.contains(e));
    }
    assert!(both.len() > all.len());
}

#[test]
fn empty_query_finds_nothing_in_all_and_everything_in_css() {
    let reg = registry();
    assert!(search_in_origin(&reg, Origin::All, "", TokenMode::Any).is_empty());
    let css = search_in_origin(&reg, Origin::Css, "", TokenMode::Any);
    assert_eq!(css.len(), 148);
    assert_eq!(css, css_colors());
    let listed = names(&css);
    let mut sorted = listed.clone();
    sorted.sort();
    assert_eq!(listed, sorted);
    // a table that is not given in alphabetical order is listed in it
    let persian = search_in_origin(&reg, Origin::Persian, "  ", TokenMode::All);
    assert_eq!(names(&persian), origin_names(&reg, Origin::Persian));
    assert_eq!(names(&persian)[0], "Persian blue");
    assert_eq!(persian.len(), 9);
    let kelvin = names(&search_in_origin(&reg, Origin::KelvinColors, "", TokenMode::Any));
    assert_eq!(kelvin, origin_names(&reg, Origin::KelvinColors));
    assert_eq!(kelvin.len(), 52);
    for w in kelvin.windows(2) {
        assert!(w[0].to_ascii_lowercase() <= w[1].to_ascii_lowercase());
    }
    assert_eq!(
        search_positions(&reg, Origin::Persian, "", TokenMode::Any),
        vec![7, 4, 6, 8, 5, 2, 1, 0, 3]
    );
    // the picker's list for the empty query
    assert!(filtered_names_for_origin(&reg, Origin::All, "").is_empty());
    assert_eq!(filtered_names_for_origin(&reg, Origin::Css, ""), sorted);
}

#[test]
fn blank_query_is_the_empty_query() {
    let reg = registry();
    for origin in [Origin::All, Origin::Css, Origin::XKCD, Origin::Seasons] {
        for mode in [TokenMode::Any, TokenMode::All, TokenMode::Substring] {
            let empty = search_in_origin(&reg, origin, "", mode);
            assert_eq!(search_in_origin(&reg, origin, "   ", mode), empty);
            assert_eq!(search_in_origin(&reg, origin, " \t\n", mode), empty);
        }
    }
}

#[test]
fn single_character_query_is_a_substring_search() {
    let reg = registry();
    for origin in [Origin::All, Origin::Css, Origin::ItalianBrands] {
        let hits = search_in_origin(&reg, origin, "z", TokenMode::Any);
        let expected = origin_slice(&reg, origin)
            .iter()
            .filter(|(_, n)| n.as_str().to_lowercase().contains('z'))
            .count();
        assert_eq!(hits.len(), expected);
        assert!(expected > 0);
        for (_, n) in &hits {
            assert!(n.as_str().to_lowercase().contains('z'));
        }
    }
    // an origin without a table answers with nothing
    assert!(search_in_origin(&reg, Origin::Pantone, "z", TokenMode::Any).is_empty());
}

#[test]
fn search_is_repeatable() {
    let reg = registry();
    for q in ["red", "dark blue", "a", "", "Abarth", "acqua di", "5600k"] {
        for mode in [TokenMode::Any, TokenMode::All, TokenMode::Substring] {
            for origin in [Origin::All, Origin::ItalianBrands, Origin::KelvinColors] {
                let first = search_in_origin(&reg, origin, q, mode);
                let second = search_in_origin(&reg, origin, q, mode);
                assert_eq!(first, second);
            }
        }
    }
}

#[test]
fn results_never_exceed_the_limit() {
    let catalogs = || {
        vec![
            ColorCatalog { name: "CSS", origin: Origin::Css, data: css_colors() },
            ColorCatalog {
                name: "Italian Brands",
                origin: Origin::ItalianBrands,
                data: italian_brand_colors(),
            },
        ]
    };
    let reg = Registry::with_limit(catalogs(), 5);
    assert_eq!(reg.max_results(), 5);
    for q in ["", "a", "red", "black", "blue white", "e"] {
        for mode in [TokenMode::Any, TokenMode::All, TokenMode::Substring] {
            for origin in [Origin::All, Origin::Css, Origin::ItalianBrands] {
                assert!(search_in_origin(&reg, origin, q, mode).len() <= 5);
            }
        }
        assert!(search_substring(&reg, q).len() <= 5);
        assert!(search_tokens_any(&reg, q).len() <= 5);
        assert!(search_tokens_all(&reg, q).len() <= 5);
    }
    // the limit cuts the list off, it does not change its beginning
    let full = Registry::new(catalogs());
    assert_eq!(full.max_results(), MAX_RESULTS);
    let long = search_in_origin(&full, Origin::All, "black", TokenMode::Any);
    let short = search_in_origin(&reg, Origin::All, "black", TokenMode::Any);
    assert!(long.len() > 5);
    assert_eq!(short.len(), 5);
    assert_eq!(&long[..5], &short[..]);
    assert_eq!(search_in_origin(&reg, Origin::Css, "", TokenMode::Any), &css_colors()[..5]);
}

#[test]
fn every_name_finds_its_own_entry() {
    let reg = registry();
    for origin in [Origin::Css, Origin::XKCD, Origin::Persian, Origin::KelvinColors] {
        for (hex, name) in origin_slice(&reg, origin) {
            let hits = search_in_origin(&reg, origin, name.as_str(), TokenMode::Any);
            assert!(hits.contains(&(*hex, *name)), "{} not found", name.as_str());
        }
    }
    // among all origins, a name that no other entry has comes first
    for name in ["tomato", "rebeccapurple", "Persian plum", "macaroni and cheese"] {
        let hits = search_in_origin(&reg, Origin::All, name, TokenMode::Any);
        assert_eq!(hits[0].1.as_str(), name);
    }
}

#[test]
fn short_tokens_filter_what_the_index_finds() {
    let reg = registry();
    // "blue" from the index, "a" as a substring of the name
    let any = names(&search_in_origin(&reg, Origin::XKCD, "blue a", TokenMode::Any));
    assert_eq!(any, vec!["dark blue", "royal blue", "navy blue", "dark blue green", "blue with a hint of purple"]);
    // short tokens must all occur in the other modes
    let all = names(&search_in_origin(&reg, Origin::XKCD, "blue a of", TokenMode::All));
    assert_eq!(all, vec!["blue with a hint of purple"]);
    let sub = names(&search_in_origin(&reg, Origin::XKCD, "blue a of", TokenMode::Substring));
    assert_eq!(sub, vec!["blue with a hint of purple"]);
    // short tokens alone
    let shorts = names(&search_in_origin(&reg, Origin::Persian, "pl", TokenMode::Any));
    assert_eq!(shorts, vec!["Persian plum"]);
    let either = names(&search_in_origin(&reg, Origin::Persian, "pl ro", TokenMode::Any));
    assert_eq!(either, vec!["Persian plum", "Persian rose"]);
    let neither = names(&search_in_origin(&reg, Origin::Persian, "pl ro", TokenMode::All));
    assert!(neither.is_empty());
}

#[test]
fn missing_tokens_and_fallbacks() {
    let reg = registry();
    // mode All: a long token that no name has ends the search
    assert!(search_in_origin(&reg, Origin::Css, "red nosuchtoken", TokenMode::All).is_empty());
    // mode Any: it is passed over
    let any = names(&search_in_origin(&reg, Origin::Css, "red nosuchtoken", TokenMode::Any));
    assert_eq!(any, vec!["red"]);
    // no long token known: the whole query as a substring
    let sub = names(&search_in_origin(&reg, Origin::Css, "golden", TokenMode::Any));
    assert_eq!(sub, vec!["darkgoldenrod", "goldenrod", "lightgoldenrodyellow", "palegoldenrod"]);
    // mode All with known tokens that no name has together: the whole query
    let none = search_in_origin(&reg, Origin::XKCD, "teal salmon", TokenMode::All);
    assert!(none.is_empty());
    let joined = names(&search_in_origin(&reg, Origin::XKCD, "green blue", TokenMode::All));
    assert_eq!(joined, vec!["dark blue green"]);
    // punctuation alone selects every entry of a single origin
    assert_eq!(search_in_origin(&reg, Origin::Persian, "-", TokenMode::Any).len(), 9);
    assert!(search_in_origin(&reg, Origin::All, "-", TokenMode::Any).len() > 0);
}

#[test]
fn unicode_names_are_tokenized_and_lowercased() {
    let reg = registry();
    let hits = names(&search_in_origin(&reg, Origin::ItalianBrands, "CLÉMENT", TokenMode::Any));
    assert_eq!(hits, vec!["Clément red", "Clément blue"]);
    let hits = names(&search_in_origin(&reg, Origin::ItalianBrands, "mirò", TokenMode::Any));
    assert_eq!(hits.len(), 3);
    assert_eq!(tokenize_lc("Elena Mirò-taupe  42"), vec!["elena", "mirò", "taupe", "42"]);
    assert_eq!(tokenize_lc("  --  "), Vec::<String>::new());
    assert_eq!(tokenize_lc("Blue-White"), vec!["blue", "white"]);
}

#[test]
fn token_searches_over_all_origins() {
    let reg = registry();
    let any = names(&search_tokens_any(&reg, "tomato plum"));
    assert_eq!(any, vec!["plum", "tomato", "Persian plum"]);
    assert!(search_tokens_any(&reg, "").is_empty());
    assert!(search_tokens_any(&reg, "nosuchtoken").is_empty());
    let all = names(&search_tokens_all(&reg, "hint of purple"));
    assert_eq!(all, vec!["blue with a hint of purple"]);
    assert!(search_tokens_all(&reg, "hint of tomato").is_empty());
    assert!(search_tokens_all(&reg, "").is_empty());
    // tokens of every length go to the index here
    let of = names(&search_tokens_all(&reg, "a"));
    assert_eq!(of, vec!["blue with a hint of purple"]);
    let sub = names(&search_substring(&reg, "TOMATO"));
    assert_eq!(sub, vec!["tomato"]);
    let sub = names(&search_substring(&reg, "tomat"));
    assert_eq!(
        sub,
        vec![
            "tomato",
            "Danieli Automation black",
            "Danieli Automation blue",
            "Danieli Automation gray"
        ]
    );
    // the substring search takes the query as it is
    assert!(search_substring(&reg, " tomat").is_empty());
    assert_eq!(search_substring(&reg, "").len(), origin_slice(&reg, Origin::All).len());
}

#[test]
fn positions_point_into_the_table() {
    let reg = registry();
    let pos = search_positions(&reg, Origin::Css, "blue", TokenMode::Any);
    let css = origin_slice(&reg, Origin::Css);
    assert_eq!(pos, vec![9]);
    assert_eq!(css[9].1.as_str(), "blue");
    let pos = search_positions(&reg, Origin::XKCD, "dark", TokenMode::Any);
    let xkcd = origin_slice(&reg, Origin::XKCD);
    for w in pos.windows(2) {
        assert!(w[0] < w[1]);
    }
    for p in &pos {
        assert!(xkcd[*p].1.as_str().contains("dark"));
    }
}

// ---------------------------------------------------------------------------
// Catalogue, lookups, names and ranks
// ---------------------------------------------------------------------------

#[test]
fn all_is_the_concatenation_in_registry_order() {
    let reg = registry();
    let all = origin_slice(&reg, Origin::All);
    let mut expected = css_colors();
    expected.extend(xkcd_colors());
    expected.extend(persian_colors());
    expected.extend(italian_brand_colors());
    expected.extend(sort_by_temperature(&kelvin_colors_unordered()));
    assert_eq!(all, &expected[..]);
    assert_eq!(colors_for_origin(&reg, Origin::XKCD), &xkcd_colors()[..]);
    assert!(origin_slice(&reg, Origin::Pantone).is_empty());
    let owned = colors_for(&reg, Origin::All);
    assert!(matches!(owned, ColorsFor::Owned(_)));
    assert_eq!(owned.as_slice(), all);
    assert_eq!(owned.len(), all.len());
    assert_eq!(owned.to_vec(), expected);
    let borrowed = colors_for(&reg, Origin::Persian);
    assert!(matches!(borrowed, ColorsFor::Slice(_)));
    assert_eq!(borrowed.len(), 9);
    assert_eq!(borrowed.iter().count(), 9);
    assert_eq!(borrowed.iter().next(), Some(&persian_colors()[0]));
    assert!(!borrowed.is_empty());
    assert!(colors_for(&reg, Origin::GitHub).is_empty());
    assert_eq!(reg.catalogs().len(), 5);
    assert_eq!(reg.position_of(Origin::Persian), Some(2));
    assert_eq!(reg.position_of(Origin::Hindi), None);
}

#[test]
fn origins_and_their_labels() {
    let all = origins_vec();
    assert_eq!(all.len(), 14);
    assert_eq!(all[0], Origin::All);
    assert_eq!(all[1], Origin::Css);
    assert_eq!(all[13], Origin::CanadianProvinces);
    assert_eq!(Origin::default(), Origin::All);
    assert_eq!(Origin::All.to_string(), "all");
    assert_eq!(Origin::XKCD.to_string(), "Xkcd");
    assert_eq!(Origin::ItalianBrands.as_str(), "Italian Brands");
    assert_eq!(Origin::GitHub.to_string(), "github");
    assert!(is_heavy_origin(Origin::All));
    assert!(is_heavy_origin(Origin::GitHub));
    assert!(!is_heavy_origin(Origin::Css));
    assert!(!is_heavy_origin(Origin::ItalianBrands));
}

#[test]
fn lookups_by_name_and_hex() {
    let reg = registry();
    // the last entry of that exact name: XKCD's red after CSS's
    assert_eq!(lookup_by_name(&reg, "red"), Some("#E50000"));
    assert_eq!(lookup_by_name(&reg, "tomato"), Some("#FF6347"));
    assert_eq!(lookup_by_name(&reg, "Red"), None);
    assert_eq!(lookup_by_name_ci(&reg, "Tomato"), Some("#FF6347"));
    assert_eq!(lookup_by_name_ci(&reg, "PERSIAN PLUM"), Some("#701C1C"));
    assert_eq!(lookup_by_name_ci(&reg, "nope"), None);
    // the first entry of that name, up to ASCII case
    assert_eq!(hex_for_name(&reg, " RED "), Some("#FF0000"));
    assert_eq!(name_for_hex(&reg, "#ff6347".to_string()), Some("tomato"));
    assert_eq!(name_for_hex(&reg, "#00ffff".to_string()), Some("aqua"));
    assert_eq!(hex_for_name_in_origin(&reg, Origin::XKCD, "Red"), Some("#E50000"));
    assert_eq!(hex_for_name_in_origin(&reg, Origin::Persian, "red"), None);
    assert_eq!(css_exact_match(&reg, "red"), Some(("#FF0000", "red")));
    assert_eq!(css_exact_match(&reg, "dark red"), None);
}

#[test]
fn priorities_follow_the_registry_order() {
    let reg = registry();
    assert_eq!(origin_priority_of(&reg, "#FF0000", "red"), 0);
    assert_eq!(origin_priority_of(&reg, "#E50000", "red"), 1);
    assert_eq!(origin_priority_of(&reg, "#701C1C", "Persian plum"), 2);
    assert_eq!(origin_priority_of(&reg, "#ed1c24", "Abarth red"), 3);
    assert_eq!(origin_priority_of(&reg, "#FFFFFF", "no such colour"), 5);
    assert_eq!(origin_group_priority(&reg, "#FF0000", "red"), 0);
    assert_eq!(origin_group_priority(&reg, "#E50000", "red"), 1);
    assert_eq!(origin_group_priority(&reg, "#701C1C", "Persian plum"), 2);
    assert_eq!(origin_group_priority(&reg, "#ed1c24", "Abarth red"), 2);
}

#[test]
fn sorting_results_in_place() {
    let reg = registry();
    let entry = |h: &'static str, n: &'static str| (HexCode::new(h), ColorName::new(n));
    let mut out = vec![
        entry("#ed1c24", "Abarth red"),
        entry("#840000", "dark red"),
        entry("#E50000", "red"),
        entry("#8B0000", "darkred"),
        entry("#FF0000", "red"),
    ];
    let mut grouped = out.clone();
    sort_results_for_all(&reg, "red", &mut out);
    assert_eq!(names(&out), vec!["red", "red", "darkred", "dark red", "Abarth red"]);
    assert_eq!(out[0].0.as_str(), "#FF0000");
    // the dropdown is ordered as the search orders: exact matches first
    sort_dropdown_by_origin(&reg, "red", &mut grouped);
    assert_eq!(names(&grouped), vec!["red", "red", "darkred", "dark red", "Abarth red"]);
    assert_eq!(grouped, out);
    let mut two = vec![entry("#FF0000", "red"), entry("#00035B", "dark blue")];
    sort_dropdown_by_origin(&reg, "dark blue", &mut two);
    assert_eq!(names(&two), vec!["dark blue", "red"]);
    let mut none: Vec<(HexCode, ColorName)> = Vec::new();
    sort_results_for_all(&reg, "red", &mut none);
    assert!(none.is_empty());
}

#[test]
fn names_and_ranks_of_an_origin() {
    let reg = registry();
    let persian = origin_names(&reg, Origin::Persian);
    assert_eq!(
        persian,
        vec![
            "Persian blue",
            "Persian green",
            "Persian indigo",
            "Persian medium blue",
            "Persian orange",
            "Persian pink",
            "Persian plum",
            "Persian red",
            "Persian rose",
        ]
    );
    assert_eq!(build_sorted_names(&reg, Origin::Persian), persian);
    let rank = origin_rank(&reg, Origin::Persian);
    assert_eq!(rank.len(), 9);
    assert_eq!(rank.get("Persian blue"), Some(0));
    assert_eq!(rank.get("Persian rose"), Some(8));
    assert_eq!(rank.get("persian rose"), None);
    let twice = build_rank_map(&["b", "a", "b"]);
    assert_eq!(twice.get("b"), Some(2));
    assert_eq!(twice.get("a"), Some(1));
    assert_eq!(twice.get("c"), None);
    // all origins: the first catalogue, then the second, then the others
    let all = origin_names(&reg, Origin::All);
    assert_eq!(all.len(), origin_slice(&reg, Origin::All).len());
    assert_eq!(all[0], "aliceblue");
    // XKCD's black and cyan are CSS's, hex code and name, and stand among them
    assert_eq!(all[149], "yellowgreen");
    assert_eq!(all[150], "aqua");
    assert!(origin_names(&reg, Origin::Hindi).is_empty());
}

#[test]
fn filtered_names_are_in_rank_order() {
    let reg = registry();
    let found = filtered_names_for_origin(&reg, Origin::Persian, "blue");
    assert_eq!(found, vec!["Persian blue", "Persian medium blue"]);
    let found = filtered_names_for_origin(&reg, Origin::XKCD, "dark blue");
    assert_eq!(found, vec!["dark blue", "dark blue green"]);
    let found = filtered_names_for_origin(&reg, Origin::XKCD, "  salmon ");
    assert_eq!(found, vec!["salmon"]);
    assert!(filtered_names_for_origin(&reg, Origin::All, "   ").is_empty());
    assert!(filtered_names_for_origin(&reg, Origin::GitHub, "").is_empty());
    let found = filtered_names_for_origin(&reg, Origin::All, "tomato");
    assert_eq!(found, vec!["tomato"]);
    assert_eq!(retain_selection(Some("TOMATO"), &found), Some("tomato"));
    assert_eq!(retain_selection(Some("red"), &found), None);
    assert_eq!(retain_selection(None, &found), None);
}

#[test]
fn what_the_picker_offers() {
    let reg = registry();
    assert_eq!(best_first_for_ui(&reg, Origin::All, "  "), None);
    assert_eq!(best_first_for_ui(&reg, Origin::All, "Red"), Some(("#FF0000", "red")));
    assert_eq!(best_first_for_ui(&reg, Origin::All, "plum"), Some(("#DDA0DD", "plum")));
    assert_eq!(best_first_for_ui(&reg, Origin::All, "sian pl"), Some(("#701C1C", "Persian plum")));
    assert_eq!(best_first_for_ui(&reg, Origin::All, "zzzz"), None);
    assert_eq!(best_first_for_ui(&reg, Origin::Persian, "plum"), Some(("#701C1C", "Persian plum")));
    assert_eq!(best_first_for_ui(&reg, Origin::Persian, "tomato"), None);
    assert!(dropdown_results_for_ui(&reg, Origin::All, "").is_empty());
    let short = dropdown_results_for_ui(&reg, Origin::All, "pl");
    assert!(short.contains(&("#DDA0DD", "plum")));
    assert!(short.contains(&("#701C1C", "Persian plum")));
    assert_eq!(short[0], ("#9370DB", "mediumpurple"));
    let long = dropdown_results_for_ui(&reg, Origin::All, "plum");
    assert_eq!(long, vec![("#DDA0DD", "plum"), ("#701C1C", "Persian plum")]);
    let one = dropdown_results_for_ui(&reg, Origin::Persian, "plum");
    assert_eq!(one, vec![("#701C1C", "Persian plum")]);
}

#[test]
fn nearest_colours() {
    let reg = registry();
    assert_eq!(nearest_css_color(&reg, "#FF6347"), ("tomato", "#FF6347", 0));
    assert_eq!(nearest_css_color(&reg, "#fe6347"), ("tomato", "#FF6347", 1));
    // #RGB is normalized first
    assert_eq!(nearest_css_color(&reg, "#f00"), ("red", "#FF0000", 0));
    // what is no colour counts as black
    assert_eq!(nearest_css_color(&reg, "nonsense"), ("black", "#000000", 0));
    // the first of two equally near entries
    assert_eq!(nearest_css_color(&reg, "#00FFFF"), ("aqua", "#00FFFF", 0));
    let empty = Registry::new(Vec::new());
    assert_eq!(nearest_css_color(&empty, "#FF6347"), ("unknown", "#000000", u32::MAX));
    assert_eq!(find_closest_color_name(&empty, Rgb { r: 1, g: 2, b: 3 }), None);
    assert_eq!(find_closest_color_name(&reg, Rgb { r: 255, g: 99, b: 71 }), Some("tomato"));
    assert_eq!(find_closest_color_name(&reg, Rgb { r: 254, g: 0, b: 1 }), Some("red"));
    assert_eq!(get_closest_color_name_from_hex(&reg, "#663399"), Some("rebeccapurple"));
    let zero = r_eq_00_names(&reg);
    assert!(!zero.is_empty());
    for (h, _) in &zero {
        assert_eq!(&h.as_str()[1..3], "00");
    }
    assert_eq!(zero[0].1.as_str(), "aqua");
    let (name, hex, d) = nearest_name_r_eq_00(&reg, "#00FE7F");
    assert_eq!((name, hex, d), ("springgreen", "#00FF7F", 1));
    let (name, _, _) = nearest_name_r_eq_00(&reg, "#FF0000");
    assert_eq!(name, "black");
}

#[test]
fn temperatures_and_numbers_in_names() {
    assert_eq!(extract_kelvin_temp("Skylight 20000K Very Pale Blue-White"), Some(20000));
    assert_eq!(extract_kelvin_temp("Noon Sun 5600k"), Some(5600));
    assert_eq!(extract_kelvin_temp("Skylight"), None);
    assert_eq!(extract_kelvin_temp("5600 K"), None);
    assert_eq!(extract_kelvin_temp("100k 300k 200k"), Some(300));
    assert_eq!(extract_kelvin_temp("0042K"), Some(42));
    assert_eq!(extract_kelvin_temp("4294967295K"), Some(4294967295));
    assert_eq!(extract_kelvin_temp("4294967296K"), None);
    assert_eq!(extract_kelvin_temp("99999999999999999999999K 7k"), Some(7));
    // the first k decides here
    assert_eq!(first_kelvin_temp("Skylight 20000K"), None);
    assert_eq!(first_kelvin_temp("Shade 8000K Bright Blue"), Some(8000));
    assert_eq!(first_kelvin_temp("no letter"), None);
    assert_eq!(extract_integer("Pantone 185 C 12"), Some(185));
    assert_eq!(extract_integer("none"), None);
    assert_eq!(extract_integer("007"), Some(7));
    assert_eq!(extract_integer("x4294967296"), None);
    let sorted = sort_by_temperature(&kelvin_colors_unordered());
    assert_eq!(sorted.len(), 52);
    let temps: Vec<u32> = sorted.iter().map(|(_, n)| extract_kelvin_temp(n.as_str()).unwrap()).collect();
    for w in temps.windows(2) {
        assert!(w[0] >= w[1]);
    }
    assert_eq!(temps[0], 20000);
    assert_eq!(temps[51], 700);
}

#[test]
fn names_are_ordered_by_their_ordering() {
    let kelvin = |n: &'static str| ColorName::new_full(n, Entity::Temperature, Origin::KelvinColors, NameOrder::Kelvin);
    let plain = |n: &'static str| ColorName::new(n);
    let custom = |n: &'static str, p: u16| ColorName::new_full(n, Entity::Other, Origin::All, NameOrder::Custom(p));
    let number = |n: &'static str| ColorName::new_full(n, Entity::Other, Origin::Pantone, NameOrder::Integer);
    assert!(name_precedes(&plain("Apple"), &plain("banana")));
    assert!(!name_precedes(&plain("banana"), &plain("Apple")));
    assert!(!name_precedes(&plain("same"), &plain("SAME")));
    assert!(name_precedes(&kelvin("Shade 800K"), &kelvin("Candle 1800K")));
    assert!(name_precedes(&number("b 2"), &number("a 10")));
    assert!(name_precedes(&custom("z", 1), &custom("a", 2)));
    assert!(name_precedes(&custom("a", 1), &custom("b", 1)));
    // different orderings: by the ordering, then by name
    assert!(name_precedes(&plain("zebra"), &kelvin("Aaa 9000K")));
    assert!(name_precedes(&kelvin("Zzz 1K"), &custom("a", 0)));
    assert_eq!(plain("x").entity(), Entity::Color);
    assert_eq!(plain("x").origin(), Origin::All);
    assert_eq!(plain("x").ordering(), NameOrder::Name);
    assert_eq!(kelvin("x").entity(), Entity::Temperature);
    assert_eq!(custom("x", 7).ordering(), NameOrder::Custom(7));
}

#[test]
fn entries_in_legacy_format() {
    let table = persian_colors();
    let legacy = convert_to_legacy_format(&table);
    assert_eq!(legacy.len(), 9);
    assert_eq!(legacy[0], ("#C81D11", "Persian red"));
    assert_eq!(table[1].to_legacy(), ("#701C1C", "Persian plum"));
    assert_eq!(HexCode::new("#C81D11").to_rgb(), Some((200, 29, 17)));
    assert_eq!(HexCode::new("##C81D11").to_rgb(), Some((200, 29, 17)));
    assert_eq!(HexCode::new("C81D11").to_rgb(), Some((200, 29, 17)));
    assert_eq!(HexCode::new("#C81D1").to_rgb(), None);
    assert_eq!(HexCode::new("#C81D1G").to_rgb(), None);
}

#[test]
fn token_index_of_a_table() {
    let table = persian_colors();
    let index = build_token_index_for(&table);
    let persian: Vec<char> = "persian".chars().collect();
    assert_eq!(index.lookup(&persian), Some(&vec![0, 1, 2, 3, 4, 5, 6, 7, 8]));
    let blue: Vec<char> = "blue".chars().collect();
    assert_eq!(index.lookup(&blue), Some(&vec![7, 8]));
    let upper: Vec<char> = "Blue".chars().collect();
    assert_eq!(index.lookup(&upper), None);
    let twice = vec![(HexCode::new("#000000"), ColorName::new("blue blue BLUE"))];
    let index = build_token_index_for(&twice);
    assert_eq!(index.lookup(&blue), Some(&vec![0]));
}

#[test]
fn entries_with_lowercase_names() {
    let reg = Registry::new(vec![ColorCatalog {
        name: "Persian",
        origin: Origin::Persian,
        data: persian_colors(),
    }]);
    let entries = colors_lc(&reg);
    assert_eq!(entries.len(), 9);
    assert_eq!(entries[0].hex, "#C81D11");
    assert_eq!(entries[0].name, "Persian red");
    assert_eq!(entries[0].name_lc, "persian red");
    assert_eq!(entries[8].name_lc, "persian medium blue");
    assert!(palette_data(Origin::Persian).is_empty());
    assert!(palette_data(Origin::All).is_empty());
}

#[test]
fn the_limit_can_hide_what_a_longer_query_finds() {
    let reg = Registry::with_limit(
        vec![ColorCatalog {
            name: "Italian Brands",
            origin: Origin::ItalianBrands,
            data: italian_brand_colors(),
        }],
        5,
    );
    let both = search_in_origin(&reg, Origin::All, "Prada white", TokenMode::All);
    assert_eq!(names(&both), vec!["Prada white"]);
    // ninety names have the token; the first five in rank are returned
    let white = names(&search_in_origin(&reg, Origin::All, "white", TokenMode::All));
    assert_eq!(white, vec!["AGV white", "AIPA white", "Angelini white", "Angelo Poretti white", "API / IP white"]);
    assert!(!white.contains(&"Prada white"));
}

#[test]
fn the_whole_query_is_tried_where_no_name_has_all_tokens() {
    let entry = |h: &'static str, n: &'static str| (HexCode::new(h), ColorName::new(n));
    let reg = Registry::new(vec![ColorCatalog {
        name: "CSS",
        origin: Origin::Css,
        data: vec![
            entry("#FF0000", "red"),
            entry("#111111", "dish"),
            entry("#222222", "bored dishes"),
        ],
    }]);
    // both tokens are known, no name has both: the names that hold the text
    let all = names(&search_in_origin(&reg, Origin::Css, "red dish", TokenMode::All));
    assert_eq!(all, vec!["bored dishes"]);
    // which neither word finds alone, in neither mode
    assert_eq!(names(&search_in_origin(&reg, Origin::Css, "red", TokenMode::All)), vec!["red"]);
    assert_eq!(names(&search_in_origin(&reg, Origin::Css, "dish", TokenMode::All)), vec!["dish"]);
    let any = names(&search_in_origin(&reg, Origin::Css, "red dish", TokenMode::Any));
    assert_eq!(any, vec!["red", "dish"]);
}

#[test]
fn a_large_table_is_cut_off_at_the_default_limit() {
    let mut data = Vec::new();
    for i in 0..6000u32 {
        let name: &'static str = Box::leak(format!("shade {} of blue", i).into_boxed_str());
        let hex: &'static str = Box::leak(format!("#{:06X}", i).into_boxed_str());
        data.push((HexCode::new(hex), ColorName::new(name)));
    }
    let reg = Registry::new(vec![ColorCatalog { name: "Pantone", origin: Origin::Pantone, data }]);
    assert_eq!(origin_slice(&reg, Origin::All).len(), 6000);
    for origin in [Origin::All, Origin::Pantone] {
        for mode in [TokenMode::Any, TokenMode::All] {
            let hits = search_in_origin(&reg, origin, "blue", mode);
            assert_eq!(hits.len(), MAX_RESULTS);
        }
        let hits = search_in_origin(&reg, origin, "shade 4711", TokenMode::All);
        assert_eq!(names(&hits), vec!["shade 4711 of blue"]);
    }
    // every name has a token of the query: in mode Any the limit decides
    let cut = search_in_origin(&reg, Origin::Pantone, "shade 4711 of blue", TokenMode::Any);
    assert_eq!(cut.len(), MAX_RESULTS);
    assert!(!cut.iter().any(|(_, n)| n.as_str() == "shade 4711 of blue"));
    let first = search_in_origin(&reg, Origin::All, "shade 4711 of blue", TokenMode::Any);
    assert_eq!(first.len(), MAX_RESULTS);
    assert_eq!(first[0].1.as_str(), "shade 4711 of blue");
    // in the table's order for the origin itself
    let own = search_in_origin(&reg, Origin::Pantone, "blue", TokenMode::Any);
    assert_eq!(own[0].1.as_str(), "shade 0 of blue");
    assert_eq!(own[3999].1.as_str(), "shade 3999 of blue");
    // by name among all origins: "shade 1000" comes before "shade 2"
    let all = search_in_origin(&reg, Origin::All, "blue", TokenMode::Any);
    assert_eq!(all[0].1.as_str(), "shade 0 of blue");
    assert_eq!(all[1].1.as_str(), "shade 1 of blue");
    assert_eq!(all[2].1.as_str(), "shade 10 of blue");
    assert_eq!(search_in_origin(&reg, Origin::Pantone, "", TokenMode::Any).len(), MAX_RESULTS);
    let one = search_in_origin(&reg, Origin::All, "shade 4711 of blue", TokenMode::All);
    assert_eq!(names(&one), vec!["shade 4711 of blue"]);
}

#[test]
fn a_name_with_a_capital_outside_ascii_is_an_exact_match_of_itself() {
    let entry = |h: &'static str, n: &'static str| (HexCode::new(h), ColorName::new(n));
    let reg = Registry::new(vec![
        ColorCatalog {
            name: "CSS",
            origin: Origin::Css,
            data: vec![entry("#50C878", "emerald"), entry("#000001", "vert émeraude")],
        },
        ColorCatalog {
            name: "Brands",
            origin: Origin::Brands,
            data: vec![entry("#50C879", "Émeraude"), entry("#000002", "Vert Émeraude clair")],
        },
    ]);
    let hits = search_in_origin(&reg, Origin::All, "Émeraude", TokenMode::Any);
    assert_eq!(names(&hits), vec!["Émeraude", "vert émeraude", "Vert Émeraude clair"]);
    let hits = search_in_origin(&reg, Origin::All, "ÉMERAUDE", TokenMode::Any);
    assert_eq!(hits[0].1.as_str(), "Émeraude");
    let mut out = vec![entry("#000001", "vert émeraude"), entry("#50C879", "Émeraude")];
    sort_results_for_all(&reg, "émeraude", &mut out);
    assert_eq!(names(&out), vec!["Émeraude", "vert émeraude"]);
}

#[test]
fn test_entity_filtering() {
    // The search goes by the tokens of the names: the tables searched here
    // are such that say in their names what their colours are named after.
    let temperature = |h: &'static str, n: &'static str| {
        (
            HexCode::new(h),
            ColorName::new_full(n, Entity::Temperature, Origin::KelvinColors, NameOrder::Kelvin),
        )
    };
    let brand = |h: &'static str, n: &'static str| {
        (HexCode::new(h), ColorName::new_full(n, Entity::Brand, Origin::Brands, NameOrder::Name))
    };
    let reg = Registry::new(vec![
        ColorCatalog { name: "CSS", origin: Origin::Css, data: css_colors() },
        ColorCatalog {
            name: "Kelvin Colors",
            origin: Origin::KelvinColors,
            data: vec![
                temperature("#C4C4FD", "Temperature 5600K Noon Sun"),
                temperature("#FBF695", "Temperature 3200K Tungsten Halogen"),
            ],
        },
        ColorCatalog {
            name: "Brands",
            origin: Origin::Brands,
            data: vec![brand("#ED1C24", "Brand Abarth red"), brand("#FFD503", "Brand Abarth yellow")],
        },
    ]);

    // Test Entity:Temperature
    let temp_results = search_in_origin(&reg, Origin::All, "Entity:Temperature", TokenMode::Any);
    println!("Temperature results: {} colors", temp_results.len());
    for (i, (hex, name)) in temp_results.iter().take(5).enumerate() {
        println!("  {}: {} - {} (entity: {:?})", i + 1, name.as_str(), hex.as_str(), name.entity());
    }

    // Test Entity:Brand
    let brand_results = search_in_origin(&reg, Origin::All, "Entity:Brand", TokenMode::Any);
    println!("Brand results: {} colors", brand_results.len());
    for (i, (hex, name)) in brand_results.iter().take(5).enumerate() {
        println!("  {}: {} - {} (entity: {:?})", i + 1, name.as_str(), hex.as_str(), name.entity());
    }

    // Test Entity:Temperature|Brand
    let combined_results =
        search_in_origin(&reg, Origin::All, "Entity:Temperature|Brand", TokenMode::Any);
    println!("Combined Temperature|Brand results: {} colors", combined_results.len());

    // Test Entity:Temperature|Brands (with 's')
    let combined_results_s =
        search_in_origin(&reg, Origin::All, "Entity:Temperature|Brands", TokenMode::Any);
    println!("Combined Temperature|Brands results: {} colors", combined_results_s.len());

    assert!(temp_results.len() > 0, "Should have Temperature colors");
    assert!(brand_results.len() > 0, "Should have Brand colors");
    assert!(combined_results.len() > 0, "Should have Temperature|Brand colors");
    assert!(combined_results_s.len() > 0, "Should have Temperature|Brands colors");

    // Test exactly as UI would call it - with TokenMode::Any (no spaces in query)
    let ui_style_results =
        search_in_origin(&reg, Origin::All, "Entity:Temperature|Brand", TokenMode::Any);
    println!("UI-style search results: {} colors", ui_style_results.len());
    assert!(ui_style_results.len() > 0, "Should have UI-style Temperature|Brand colors");

    // what is found is of the entity asked for
    assert!(temp_results.iter().all(|(_, n)| n.entity() == Entity::Temperature));
    assert!(brand_results.iter().all(|(_, n)| n.entity() == Entity::Brand));
    assert_eq!(combined_results.len(), 4);
    assert_eq!(combined_results_s.len(), 2);
}
