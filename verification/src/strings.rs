//! The String Table: maps string identifiers to text.
//!
//! Identifiers below 391 resolve against the fixed, immutable table of
//! standard strings that ships with the format; identifiers at or above 391
//! index the font's custom String INDEX. `allocate` de-duplicates against
//! both tables before appending, so repeated mutate/save cycles cannot grow
//! the custom table without bound.

use vstd::prelude::*;
use vstd::string::{StrSliceExecFns, StringExecFns, StringSliceAdditionalSpecFns};
use vstd::utf8::encode_utf8;

use crate::dict::StringId;
use crate::error::CffError;
use crate::index::{byte_views, fits_index, lemma_get_wf, spec_get, Index};

verus! {

/// The number of standard strings: identifiers 0 to 390 are standard.
pub const STANDARD_STRING_COUNT: u16 = 391;

/// Standard strings 0 to 49.
pub open spec fn spec_standard_string_0(i: int) -> Seq<char> {
    if i == 0 {
        ".notdef"@
    } else if i == 1 {
        "space"@
    } else if i == 2 {
        "exclam"@
    } else if i == 3 {
        "quotedbl"@
    } else if i == 4 {
        "numbersign"@
    } else if i == 5 {
        "dollar"@
    } else if i == 6 {
        "percent"@
    } else if i == 7 {
        "ampersand"@
    } else if i == 8 {
        "quoteright"@
    } else if i == 9 {
        "parenleft"@
    } else if i == 10 {
        "parenright"@
    } else if i == 11 {
        "asterisk"@
    } else if i == 12 {
        "plus"@
    } else if i == 13 {
        "comma"@
    } else if i == 14 {
        "hyphen"@
    } else if i == 15 {
        "period"@
    } else if i == 16 {
        "slash"@
    } else if i == 17 {
        "zero"@
    } else if i == 18 {
        "one"@
    } else if i == 19 {
        "two"@
    } else if i == 20 {
        "three"@
    } else if i == 21 {
        "four"@
    } else if i == 22 {
        "five"@
    } else if i == 23 {
        "six"@
    } else if i == 24 {
        "seven"@
    } else if i == 25 {
        "eight"@
    } else if i == 26 {
        "nine"@
    } else if i == 27 {
        "colon"@
    } else if i == 28 {
        "semicolon"@
    } else if i == 29 {
        "less"@
    } else if i == 30 {
        "equal"@
    } else if i == 31 {
        "greater"@
    } else if i == 32 {
        "question"@
    } else if i == 33 {
        "at"@
    } else if i == 34 {
        "A"@
    } else if i == 35 {
        "B"@
    } else if i == 36 {
        "C"@
    } else if i == 37 {
        "D"@
    } else if i == 38 {
        "E"@
    } else if i == 39 {
        "F"@
    } else if i == 40 {
        "G"@
    } else if i == 41 {
        "H"@
    } else if i == 42 {
        "I"@
    } else if i == 43 {
        "J"@
    } else if i == 44 {
        "K"@
    } else if i == 45 {
        "L"@
    } else if i == 46 {
        "M"@
    } else if i == 47 {
        "N"@
    } else if i == 48 {
        "O"@
    } else if i == 49 {
        "P"@
    } else {
        Seq::empty()
    }
}

/// Standard strings 50 to 99.
pub open spec fn spec_standard_string_1(i: int) -> Seq<char> {
    if i == 50 {
        "Q"@
    } else if i == 51 {
        "R"@
    } else if i == 52 {
        "S"@
    } else if i == 53 {
        "T"@
    } else if i == 54 {
        "U"@
    } else if i == 55 {
        "V"@
    } else if i == 56 {
        "W"@
    } else if i == 57 {
        "X"@
    } else if i == 58 {
        "Y"@
    } else if i == 59 {
        "Z"@
    } else if i == 60 {
        "bracketleft"@
    } else if i == 61 {
        "backslash"@
    } else if i == 62 {
        "bracketright"@
    } else if i == 63 {
        "asciicircum"@
    } else if i == 64 {
        "underscore"@
    } else if i == 65 {
        "quoteleft"@
    } else if i == 66 {
        "a"@
    } else if i == 67 {
        "b"@
    } else if i == 68 {
        "c"@
    } else if i == 69 {
        "d"@
    } else if i == 70 {
        "e"@
    } else if i == 71 {
        "f"@
    } else if i == 72 {
        "g"@
    } else if i == 73 {
        "h"@
    } else if i == 74 {
        "i"@
    } else if i == 75 {
        "j"@
    } else if i == 76 {
        "k"@
    } else if i == 77 {
        "l"@
    } else if i == 78 {
        "m"@
    } else if i == 79 {
        "n"@
    } else if i == 80 {
        "o"@
    } else if i == 81 {
        "p"@
    } else if i == 82 {
        "q"@
    } else if i == 83 {
        "r"@
    } else if i == 84 {
        "s"@
    } else if i == 85 {
        "t"@
    } else if i == 86 {
        "u"@
    } else if i == 87 {
        "v"@
    } else if i == 88 {
        "w"@
    } else if i == 89 {
        "x"@
    } else if i == 90 {
        "y"@
    } else if i == 91 {
        "z"@
    } else if i == 92 {
        "braceleft"@
    } else if i == 93 {
        "bar"@
    } else if i == 94 {
        "braceright"@
    } else if i == 95 {
        "asciitilde"@
    } else if i == 96 {
        "exclamdown"@
    } else if i == 97 {
        "cent"@
    } else if i == 98 {
        "sterling"@
    } else if i == 99 {
        "fraction"@
    } else {
        Seq::empty()
    }
}

/// Standard strings 100 to 149.
pub open spec fn spec_standard_string_2(i: int) -> Seq<char> {
    if i == 100 {
        "yen"@
    } else if i == 101 {
        "florin"@
    } else if i == 102 {
        "section"@
    } else if i == 103 {
        "currency"@
    } else if i == 104 {
        "quotesingle"@
    } else if i == 105 {
        "quotedblleft"@
    } else if i == 106 {
        "guillemotleft"@
    } else if i == 107 {
        "guilsinglleft"@
    } else if i == 108 {
        "guilsinglright"@
    } else if i == 109 {
        "fi"@
    } else if i == 110 {
        "fl"@
    } else if i == 111 {
        "endash"@
    } else if i == 112 {
        "dagger"@
    } else if i == 113 {
        "daggerdbl"@
    } else if i == 114 {
        "periodcentered"@
    } else if i == 115 {
        "paragraph"@
    } else if i == 116 {
        "bullet"@
    } else if i == 117 {
        "quotesinglbase"@
    } else if i == 118 {
        "quotedblbase"@
    } else if i == 119 {
        "quotedblright"@
    } else if i == 120 {
        "guillemotright"@
    } else if i == 121 {
        "ellipsis"@
    } else if i == 122 {
        "perthousand"@
    } else if i == 123 {
        "questiondown"@
    } else if i == 124 {
        "grave"@
    } else if i == 125 {
        "acute"@
    } else if i == 126 {
        "circumflex"@
    } else if i == 127 {
        "tilde"@
    } else if i == 128 {
        "macron"@
    } else if i == 129 {
        "breve"@
    } else if i == 130 {
        "dotaccent"@
    } else if i == 131 {
        "dieresis"@
    } else if i == 132 {
        "ring"@
    } else if i == 133 {
        "cedilla"@
    } else if i == 134 {
        "hungarumlaut"@
    } else if i == 135 {
        "ogonek"@
    } else if i == 136 {
        "caron"@
    } else if i == 137 {
        "emdash"@
    } else if i == 138 {
        "AE"@
    } else if i == 139 {
        "ordfeminine"@
    } else if i == 140 {
        "Lslash"@
    } else if i == 141 {
        "Oslash"@
    } else if i == 142 {
        "OE"@
    } else if i == 143 {
        "ordmasculine"@
    } else if i == 144 {
        "ae"@
    } else if i == 145 {
        "dotlessi"@
    } else if i == 146 {
        "lslash"@
    } else if i == 147 {
        "oslash"@
    } else if i == 148 {
        "oe"@
    } else if i == 149 {
        "germandbls"@
    } else {
        Seq::empty()
    }
}

/// Standard strings 150 to 199.
pub open spec fn spec_standard_string_3(i: int) -> Seq<char> {
    if i == 150 {
        "onesuperior"@
    } else if i == 151 {
        "logicalnot"@
    } else if i == 152 {
        "mu"@
    } else if i == 153 {
        "trademark"@
    } else if i == 154 {
        "Eth"@
    } else if i == 155 {
        "onehalf"@
    } else if i == 156 {
        "plusminus"@
    } else if i == 157 {
        "Thorn"@
    } else if i == 158 {
        "onequarter"@
    } else if i == 159 {
        "divide"@
    } else if i == 160 {
        "brokenbar"@
    } else if i == 161 {
        "degree"@
    } else if i == 162 {
        "thorn"@
    } else if i == 163 {
        "threequarters"@
    } else if i == 164 {
        "twosuperior"@
    } else if i == 165 {
        "registered"@
    } else if i == 166 {
        "minus"@
    } else if i == 167 {
        "eth"@
    } else if i == 168 {
        "multiply"@
    } else if i == 169 {
        "threesuperior"@
    } else if i == 170 {
        "copyright"@
    } else if i == 171 {
        "Aacute"@
    } else if i == 172 {
        "Acircumflex"@
    } else if i == 173 {
        "Adieresis"@
    } else if i == 174 {
        "Agrave"@
    } else if i == 175 {
        "Aring"@
    } else if i == 176 {
        "Atilde"@
    } else if i == 177 {
        "Ccedilla"@
    } else if i == 178 {
        "Eacute"@
    } else if i == 179 {
        "Ecircumflex"@
    } else if i == 180 {
        "Edieresis"@
    } else if i == 181 {
        "Egrave"@
    } else if i == 182 {
        "Iacute"@
    } else if i == 183 {
        "Icircumflex"@
    } else if i == 184 {
        "Idieresis"@
    } else if i == 185 {
        "Igrave"@
    } else if i == 186 {
        "Ntilde"@
    } else if i == 187 {
        "Oacute"@
    } else if i == 188 {
        "Ocircumflex"@
    } else if i == 189 {
        "Odieresis"@
    } else if i == 190 {
        "Ograve"@
    } else if i == 191 {
        "Otilde"@
    } else if i == 192 {
        "Scaron"@
    } else if i == 193 {
        "Uacute"@
    } else if i == 194 {
        "Ucircumflex"@
    } else if i == 195 {
        "Udieresis"@
    } else if i == 196 {
        "Ugrave"@
    } else if i == 197 {
        "Yacute"@
    } else if i == 198 {
        "Ydieresis"@
    } else if i == 199 {
        "Zcaron"@
    } else {
        Seq::empty()
    }
}

/// Standard strings 200 to 249.
pub open spec fn spec_standard_string_4(i: int) -> Seq<char> {
    if i == 200 {
        "aacute"@
    } else if i == 201 {
        "acircumflex"@
    } else if i == 202 {
        "adieresis"@
    } else if i == 203 {
        "agrave"@
    } else if i == 204 {
        "aring"@
    } else if i == 205 {
        "atilde"@
    } else if i == 206 {
        "ccedilla"@
    } else if i == 207 {
        "eacute"@
    } else if i == 208 {
        "ecircumflex"@
    } else if i == 209 {
        "edieresis"@
    } else if i == 210 {
        "egrave"@
    } else if i == 211 {
        "iacute"@
    } else if i == 212 {
        "icircumflex"@
    } else if i == 213 {
        "idieresis"@
    } else if i == 214 {
        "igrave"@
    } else if i == 215 {
        "ntilde"@
    } else if i == 216 {
        "oacute"@
    } else if i == 217 {
        "ocircumflex"@
    } else if i == 218 {
        "odieresis"@
    } else if i == 219 {
        "ograve"@
    } else if i == 220 {
        "otilde"@
    } else if i == 221 {
        "scaron"@
    } else if i == 222 {
        "uacute"@
    } else if i == 223 {
        "ucircumflex"@
    } else if i == 224 {
        "udieresis"@
    } else if i == 225 {
        "ugrave"@
    } else if i == 226 {
        "yacute"@
    } else if i == 227 {
        "ydieresis"@
    } else if i == 228 {
        "zcaron"@
    } else if i == 229 {
        "exclamsmall"@
    } else if i == 230 {
        "Hungarumlautsmall"@
    } else if i == 231 {
        "dollaroldstyle"@
    } else if i == 232 {
        "dollarsuperior"@
    } else if i == 233 {
        "ampersandsmall"@
    } else if i == 234 {
        "Acutesmall"@
    } else if i == 235 {
        "parenleftsuperior"@
    } else if i == 236 {
        "parenrightsuperior"@
    } else if i == 237 {
        "twodotenleader"@
    } else if i == 238 {
        "onedotenleader"@
    } else if i == 239 {
        "zerooldstyle"@
    } else if i == 240 {
        "oneoldstyle"@
    } else if i == 241 {
        "twooldstyle"@
    } else if i == 242 {
        "threeoldstyle"@
    } else if i == 243 {
        "fouroldstyle"@
    } else if i == 244 {
        "fiveoldstyle"@
    } else if i == 245 {
        "sixoldstyle"@
    } else if i == 246 {
        "sevenoldstyle"@
    } else if i == 247 {
        "eightoldstyle"@
    } else if i == 248 {
        "nineoldstyle"@
    } else if i == 249 {
        "commasuperior"@
    } else {
        Seq::empty()
    }
}

/// Standard strings 250 to 299.
pub open spec fn spec_standard_string_5(i: int) -> Seq<char> {
    if i == 250 {
        "threequartersemdash"@
    } else if i == 251 {
        "periodsuperior"@
    } else if i == 252 {
        "questionsmall"@
    } else if i == 253 {
        "asuperior"@
    } else if i == 254 {
        "bsuperior"@
    } else if i == 255 {
        "centsuperior"@
    } else if i == 256 {
        "dsuperior"@
    } else if i == 257 {
        "esuperior"@
    } else if i == 258 {
        "isuperior"@
    } else if i == 259 {
        "lsuperior"@
    } else if i == 260 {
        "msuperior"@
    } else if i == 261 {
        "nsuperior"@
    } else if i == 262 {
        "osuperior"@
    } else if i == 263 {
        "rsuperior"@
    } else if i == 264 {
        "ssuperior"@
    } else if i == 265 {
        "tsuperior"@
    } else if i == 266 {
        "ff"@
    } else if i == 267 {
        "ffi"@
    } else if i == 268 {
        "ffl"@
    } else if i == 269 {
        "parenleftinferior"@
    } else if i == 270 {
        "parenrightinferior"@
    } else if i == 271 {
        "Circumflexsmall"@
    } else if i == 272 {
        "hyphensuperior"@
    } else if i == 273 {
        "Gravesmall"@
    } else if i == 274 {
        "Asmall"@
    } else if i == 275 {
        "Bsmall"@
    } else if i == 276 {
        "Csmall"@
    } else if i == 277 {
        "Dsmall"@
    } else if i == 278 {
        "Esmall"@
    } else if i == 279 {
        "Fsmall"@
    } else if i == 280 {
        "Gsmall"@
    } else if i == 281 {
        "Hsmall"@
    } else if i == 282 {
        "Ismall"@
    } else if i == 283 {
        "Jsmall"@
    } else if i == 284 {
        "Ksmall"@
    } else if i == 285 {
        "Lsmall"@
    } else if i == 286 {
        "Msmall"@
    } else if i == 287 {
        "Nsmall"@
    } else if i == 288 {
        "Osmall"@
    } else if i == 289 {
        "Psmall"@
    } else if i == 290 {
        "Qsmall"@
    } else if i == 291 {
        "Rsmall"@
    } else if i == 292 {
        "Ssmall"@
    } else if i == 293 {
        "Tsmall"@
    } else if i == 294 {
        "Usmall"@
    } else if i == 295 {
        "Vsmall"@
    } else if i == 296 {
        "Wsmall"@
    } else if i == 297 {
        "Xsmall"@
    } else if i == 298 {
        "Ysmall"@
    } else if i == 299 {
        "Zsmall"@
    } else {
        Seq::empty()
    }
}

/// Standard strings 300 to 349.
pub open spec fn spec_standard_string_6(i: int) -> Seq<char> {
    if i == 300 {
        "colonmonetary"@
    } else if i == 301 {
        "onefitted"@
    } else if i == 302 {
        "rupiah"@
    } else if i == 303 {
        "Tildesmall"@
    } else if i == 304 {
        "exclamdownsmall"@
    } else if i == 305 {
        "centoldstyle"@
    } else if i == 306 {
        "Lslashsmall"@
    } else if i == 307 {
        "Scaronsmall"@
    } else if i == 308 {
        "Zcaronsmall"@
    } else if i == 309 {
        "Dieresissmall"@
    } else if i == 310 {
        "Brevesmall"@
    } else if i == 311 {
        "Caronsmall"@
    } else if i == 312 {
        "Dotaccentsmall"@
    } else if i == 313 {
        "Macronsmall"@
    } else if i == 314 {
        "figuredash"@
    } else if i == 315 {
        "hypheninferior"@
    } else if i == 316 {
        "Ogoneksmall"@
    } else if i == 317 {
        "Ringsmall"@
    } else if i == 318 {
        "Cedillasmall"@
    } else if i == 319 {
        "questiondownsmall"@
    } else if i == 320 {
        "oneeighth"@
    } else if i == 321 {
        "threeeighths"@
    } else if i == 322 {
        "fiveeighths"@
    } else if i == 323 {
        "seveneighths"@
    } else if i == 324 {
        "onethird"@
    } else if i == 325 {
        "twothirds"@
    } else if i == 326 {
        "zerosuperior"@
    } else if i == 327 {
        "foursuperior"@
    } else if i == 328 {
        "fivesuperior"@
    } else if i == 329 {
        "sixsuperior"@
    } else if i == 330 {
        "sevensuperior"@
    } else if i == 331 {
        "eightsuperior"@
    } else if i == 332 {
        "ninesuperior"@
    } else if i == 333 {
        "zeroinferior"@
    } else if i == 334 {
        "oneinferior"@
    } else if i == 335 {
        "twoinferior"@
    } else if i == 336 {
        "threeinferior"@
    } else if i == 337 {
        "fourinferior"@
    } else if i == 338 {
        "fiveinferior"@
    } else if i == 339 {
        "sixinferior"@
    } else if i == 340 {
        "seveninferior"@
    } else if i == 341 {
        "eightinferior"@
    } else if i == 342 {
        "nineinferior"@
    } else if i == 343 {
        "centinferior"@
    } else if i == 344 {
        "dollarinferior"@
    } else if i == 345 {
        "periodinferior"@
    } else if i == 346 {
        "commainferior"@
    } else if i == 347 {
        "Agravesmall"@
    } else if i == 348 {
        "Aacutesmall"@
    } else if i == 349 {
        "Acircumflexsmall"@
    } else {
        Seq::empty()
    }
}

/// Standard strings 350 to 390.
pub open spec fn spec_standard_string_7(i: int) -> Seq<char> {
    if i == 350 {
        "Atildesmall"@
    } else if i == 351 {
        "Adieresissmall"@
    } else if i == 352 {
        "Aringsmall"@
    } else if i == 353 {
        "AEsmall"@
    } else if i == 354 {
        "Ccedillasmall"@
    } else if i == 355 {
        "Egravesmall"@
    } else if i == 356 {
        "Eacutesmall"@
    } else if i == 357 {
        "Ecircumflexsmall"@
    } else if i == 358 {
        "Edieresissmall"@
    } else if i == 359 {
        "Igravesmall"@
    } else if i == 360 {
        "Iacutesmall"@
    } else if i == 361 {
        "Icircumflexsmall"@
    } else if i == 362 {
        "Idieresissmall"@
    } else if i == 363 {
        "Ethsmall"@
    } else if i == 364 {
        "Ntildesmall"@
    } else if i == 365 {
        "Ogravesmall"@
    } else if i == 366 {
        "Oacutesmall"@
    } else if i == 367 {
        "Ocircumflexsmall"@
    } else if i == 368 {
        "Otildesmall"@
    } else if i == 369 {
        "Odieresissmall"@
    } else if i == 370 {
        "OEsmall"@
    } else if i == 371 {
        "Oslashsmall"@
    } else if i == 372 {
        "Ugravesmall"@
    } else if i == 373 {
        "Uacutesmall"@
    } else if i == 374 {
        "Ucircumflexsmall"@
    } else if i == 375 {
        "Udieresissmall"@
    } else if i == 376 {
        "Yacutesmall"@
    } else if i == 377 {
        "Thornsmall"@
    } else if i == 378 {
        "Ydieresissmall"@
    } else if i == 379 {
        "001.000"@
    } else if i == 380 {
        "001.001"@
    } else if i == 381 {
        "001.002"@
    } else if i == 382 {
        "001.003"@
    } else if i == 383 {
        "Black"@
    } else if i == 384 {
        "Bold"@
    } else if i == 385 {
        "Book"@
    } else if i == 386 {
        "Light"@
    } else if i == 387 {
        "Medium"@
    } else if i == 388 {
        "Regular"@
    } else if i == 389 {
        "Roman"@
    } else if i == 390 {
        "Semibold"@
    } else {
        Seq::empty()
    }
}

/// The text of standard string `i`, for `0 <= i < 391`.
pub open spec fn spec_standard_string(i: int) -> Seq<char> {
    if i < 50 {
        spec_standard_string_0(i)
    } else if i < 100 {
        spec_standard_string_1(i)
    } else if i < 150 {
        spec_standard_string_2(i)
    } else if i < 200 {
        spec_standard_string_3(i)
    } else if i < 250 {
        spec_standard_string_4(i)
    } else if i < 300 {
        spec_standard_string_5(i)
    } else if i < 350 {
        spec_standard_string_6(i)
    } else if i < 391 {
        spec_standard_string_7(i)
    } else {
        Seq::empty()
    }
}

/// The UTF-8 bytes of standard string `i` (all standard strings are ASCII).
pub open spec fn spec_standard_bytes(i: int) -> Seq<u8> {
    encode_utf8(spec_standard_string(i))
}

fn standard_string_0(id: u16) -> (s: &'static str)
    requires
        0 <= id < 50,
    ensures
        s@ == spec_standard_string(id as int),
{
    match id {
        0 => ".notdef",
        1 => "space",
        2 => "exclam",
        3 => "quotedbl",
        4 => "numbersign",
        5 => "dollar",
        6 => "percent",
        7 => "ampersand",
        8 => "quoteright",
        9 => "parenleft",
        10 => "parenright",
        11 => "asterisk",
        12 => "plus",
        13 => "comma",
        14 => "hyphen",
        15 => "period",
        16 => "slash",
        17 => "zero",
        18 => "one",
        19 => "two",
        20 => "three",
        21 => "four",
        22 => "five",
        23 => "six",
        24 => "seven",
        25 => "eight",
        26 => "nine",
        27 => "colon",
        28 => "semicolon",
        29 => "less",
        30 => "equal",
        31 => "greater",
        32 => "question",
        33 => "at",
        34 => "A",
        35 => "B",
        36 => "C",
        37 => "D",
        38 => "E",
        39 => "F",
        40 => "G",
        41 => "H",
        42 => "I",
        43 => "J",
        44 => "K",
        45 => "L",
        46 => "M",
        47 => "N",
        48 => "O",
        49 => "P",
        _ => "",
    }
}

fn standard_string_1(id: u16) -> (s: &'static str)
    requires
        50 <= id < 100,
    ensures
        s@ == spec_standard_string(id as int),
{
    match id {
        50 => "Q",
        51 => "R",
        52 => "S",
        53 => "T",
        54 => "U",
        55 => "V",
        56 => "W",
        57 => "X",
        58 => "Y",
        59 => "Z",
        60 => "bracketleft",
        61 => "backslash",
        62 => "bracketright",
        63 => "asciicircum",
        64 => "underscore",
        65 => "quoteleft",
        66 => "a",
        67 => "b",
        68 => "c",
        69 => "d",
        70 => "e",
        71 => "f",
        72 => "g",
        73 => "h",
        74 => "i",
        75 => "j",
        76 => "k",
        77 => "l",
        78 => "m",
        79 => "n",
        80 => "o",
        81 => "p",
        82 => "q",
        83 => "r",
        84 => "s",
        85 => "t",
        86 => "u",
        87 => "v",
        88 => "w",
        89 => "x",
        90 => "y",
        91 => "z",
        92 => "braceleft",
        93 => "bar",
        94 => "braceright",
        95 => "asciitilde",
        96 => "exclamdown",
        97 => "cent",
        98 => "sterling",
        99 => "fraction",
        _ => "",
    }
}

fn standard_string_2(id: u16) -> (s: &'static str)
    requires
        100 <= id < 150,
    ensures
        s@ == spec_standard_string(id as int),
{
    match id {
        100 => "yen",
        101 => "florin",
        102 => "section",
        103 => "currency",
        104 => "quotesingle",
        105 => "quotedblleft",
        106 => "guillemotleft",
        107 => "guilsinglleft",
        108 => "guilsinglright",
        109 => "fi",
        110 => "fl",
        111 => "endash",
        112 => "dagger",
        113 => "daggerdbl",
        114 => "periodcentered",
        115 => "paragraph",
        116 => "bullet",
        117 => "quotesinglbase",
        118 => "quotedblbase",
        119 => "quotedblright",
        120 => "guillemotright",
        121 => "ellipsis",
        122 => "perthousand",
        123 => "questiondown",
        124 => "grave",
        125 => "acute",
        126 => "circumflex",
        127 => "tilde",
        128 => "macron",
        129 => "breve",
        130 => "dotaccent",
        131 => "dieresis",
        132 => "ring",
        133 => "cedilla",
        134 => "hungarumlaut",
        135 => "ogonek",
        136 => "caron",
        137 => "emdash",
        138 => "AE",
        139 => "ordfeminine",
        140 => "Lslash",
        141 => "Oslash",
        142 => "OE",
        143 => "ordmasculine",
        144 => "ae",
        145 => "dotlessi",
        146 => "lslash",
        147 => "oslash",
        148 => "oe",
        149 => "germandbls",
        _ => "",
    }
}

fn standard_string_3(id: u16) -> (s: &'static str)
    requires
        150 <= id < 200,
    ensures
        s@ == spec_standard_string(id as int),
{
    match id {
        150 => "onesuperior",
        151 => "logicalnot",
        152 => "mu",
        153 => "trademark",
        154 => "Eth",
        155 => "onehalf",
        156 => "plusminus",
        157 => "Thorn",
        158 => "onequarter",
        159 => "divide",
        160 => "brokenbar",
        161 => "degree",
        162 => "thorn",
        163 => "threequarters",
        164 => "twosuperior",
        165 => "registered",
        166 => "minus",
        167 => "eth",
        168 => "multiply",
        169 => "threesuperior",
        170 => "copyright",
        171 => "Aacute",
        172 => "Acircumflex",
        173 => "Adieresis",
        174 => "Agrave",
        175 => "Aring",
        176 => "Atilde",
        177 => "Ccedilla",
        178 => "Eacute",
        179 => "Ecircumflex",
        180 => "Edieresis",
        181 => "Egrave",
        182 => "Iacute",
        183 => "Icircumflex",
        184 => "Idieresis",
        185 => "Igrave",
        186 => "Ntilde",
        187 => "Oacute",
        188 => "Ocircumflex",
        189 => "Odieresis",
        190 => "Ograve",
        191 => "Otilde",
        192 => "Scaron",
        193 => "Uacute",
        194 => "Ucircumflex",
        195 => "Udieresis",
        196 => "Ugrave",
        197 => "Yacute",
        198 => "Ydieresis",
        199 => "Zcaron",
        _ => "",
    }
}

fn standard_string_4(id: u16) -> (s: &'static str)
    requires
        200 <= id < 250,
    ensures
        s@ == spec_standard_string(id as int),
{
    match id {
        200 => "aacute",
        201 => "acircumflex",
        202 => "adieresis",
        203 => "agrave",
        204 => "aring",
        205 => "atilde",
        206 => "ccedilla",
        207 => "eacute",
        208 => "ecircumflex",
        209 => "edieresis",
        210 => "egrave",
        211 => "iacute",
        212 => "icircumflex",
        213 => "idieresis",
        214 => "igrave",
        215 => "ntilde",
        216 => "oacute",
        217 => "ocircumflex",
        218 => "odieresis",
        219 => "ograve",
        220 => "otilde",
        221 => "scaron",
        222 => "uacute",
        223 => "ucircumflex",
        224 => "udieresis",
        225 => "ugrave",
        226 => "yacute",
        227 => "ydieresis",
        228 => "zcaron",
        229 => "exclamsmall",
        230 => "Hungarumlautsmall",
        231 => "dollaroldstyle",
        232 => "dollarsuperior",
        233 => "ampersandsmall",
        234 => "Acutesmall",
        235 => "parenleftsuperior",
        236 => "parenrightsuperior",
        237 => "twodotenleader",
        238 => "onedotenleader",
        239 => "zerooldstyle",
        240 => "oneoldstyle",
        241 => "twooldstyle",
        242 => "threeoldstyle",
        243 => "fouroldstyle",
        244 => "fiveoldstyle",
        245 => "sixoldstyle",
        246 => "sevenoldstyle",
        247 => "eightoldstyle",
        248 => "nineoldstyle",
        249 => "commasuperior",
        _ => "",
    }
}

fn standard_string_5(id: u16) -> (s: &'static str)
    requires
        250 <= id < 300,
    ensures
        s@ == spec_standard_string(id as int),
{
    match id {
        250 => "threequartersemdash",
        251 => "periodsuperior",
        252 => "questionsmall",
        253 => "asuperior",
        254 => "bsuperior",
        255 => "centsuperior",
        256 => "dsuperior",
        257 => "esuperior",
        258 => "isuperior",
        259 => "lsuperior",
        260 => "msuperior",
        261 => "nsuperior",
        262 => "osuperior",
        263 => "rsuperior",
        264 => "ssuperior",
        265 => "tsuperior",
        266 => "ff",
        267 => "ffi",
        268 => "ffl",
        269 => "parenleftinferior",
        270 => "parenrightinferior",
        271 => "Circumflexsmall",
        272 => "hyphensuperior",
        273 => "Gravesmall",
        274 => "Asmall",
        275 => "Bsmall",
        276 => "Csmall",
        277 => "Dsmall",
        278 => "Esmall",
        279 => "Fsmall",
        280 => "Gsmall",
        281 => "Hsmall",
        282 => "Ismall",
        283 => "Jsmall",
        284 => "Ksmall",
        285 => "Lsmall",
        286 => "Msmall",
        287 => "Nsmall",
        288 => "Osmall",
        289 => "Psmall",
        290 => "Qsmall",
        291 => "Rsmall",
        292 => "Ssmall",
        293 => "Tsmall",
        294 => "Usmall",
        295 => "Vsmall",
        296 => "Wsmall",
        297 => "Xsmall",
        298 => "Ysmall",
        299 => "Zsmall",
        _ => "",
    }
}

fn standard_string_6(id: u16) -> (s: &'static str)
    requires
        300 <= id < 350,
    ensures
        s@ == spec_standard_string(id as int),
{
    match id {
        300 => "colonmonetary",
        301 => "onefitted",
        302 => "rupiah",
        303 => "Tildesmall",
        304 => "exclamdownsmall",
        305 => "centoldstyle",
        306 => "Lslashsmall",
        307 => "Scaronsmall",
        308 => "Zcaronsmall",
        309 => "Dieresissmall",
        310 => "Brevesmall",
        311 => "Caronsmall",
        312 => "Dotaccentsmall",
        313 => "Macronsmall",
        314 => "figuredash",
        315 => "hypheninferior",
        316 => "Ogoneksmall",
        317 => "Ringsmall",
        318 => "Cedillasmall",
        319 => "questiondownsmall",
        320 => "oneeighth",
        321 => "threeeighths",
        322 => "fiveeighths",
        323 => "seveneighths",
        324 => "onethird",
        325 => "twothirds",
        326 => "zerosuperior",
        327 => "foursuperior",
        328 => "fivesuperior",
        329 => "sixsuperior",
        330 => "sevensuperior",
        331 => "eightsuperior",
        332 => "ninesuperior",
        333 => "zeroinferior",
        334 => "oneinferior",
        335 => "twoinferior",
        336 => "threeinferior",
        337 => "fourinferior",
        338 => "fiveinferior",
        339 => "sixinferior",
        340 => "seveninferior",
        341 => "eightinferior",
        342 => "nineinferior",
        343 => "centinferior",
        344 => "dollarinferior",
        345 => "periodinferior",
        346 => "commainferior",
        347 => "Agravesmall",
        348 => "Aacutesmall",
        349 => "Acircumflexsmall",
        _ => "",
    }
}

fn standard_string_7(id: u16) -> (s: &'static str)
    requires
        350 <= id < 391,
    ensures
        s@ == spec_standard_string(id as int),
{
    match id {
        350 => "Atildesmall",
        351 => "Adieresissmall",
        352 => "Aringsmall",
        353 => "AEsmall",
        354 => "Ccedillasmall",
        355 => "Egravesmall",
        356 => "Eacutesmall",
        357 => "Ecircumflexsmall",
        358 => "Edieresissmall",
        359 => "Igravesmall",
        360 => "Iacutesmall",
        361 => "Icircumflexsmall",
        362 => "Idieresissmall",
        363 => "Ethsmall",
        364 => "Ntildesmall",
        365 => "Ogravesmall",
        366 => "Oacutesmall",
        367 => "Ocircumflexsmall",
        368 => "Otildesmall",
        369 => "Odieresissmall",
        370 => "OEsmall",
        371 => "Oslashsmall",
        372 => "Ugravesmall",
        373 => "Uacutesmall",
        374 => "Ucircumflexsmall",
        375 => "Udieresissmall",
        376 => "Yacutesmall",
        377 => "Thornsmall",
        378 => "Ydieresissmall",
        379 => "001.000",
        380 => "001.001",
        381 => "001.002",
        382 => "001.003",
        383 => "Black",
        384 => "Bold",
        385 => "Book",
        386 => "Light",
        387 => "Medium",
        388 => "Regular",
        389 => "Roman",
        390 => "Semibold",
        _ => "",
    }
}

/// The fixed standard string for an identifier below 391.
pub fn standard_string(id: u16) -> (s: &'static str)
    requires
        id < STANDARD_STRING_COUNT,
    ensures
        s@ == spec_standard_string(id as int),
{
    if id < 50 {
        standard_string_0(id)
    } else if id < 100 {
        standard_string_1(id)
    } else if id < 150 {
        standard_string_2(id)
    } else if id < 200 {
        standard_string_3(id)
    } else if id < 250 {
        standard_string_4(id)
    } else if id < 300 {
        standard_string_5(id)
    } else if id < 350 {
        standard_string_6(id)
    } else if id < 391 {
        standard_string_7(id)
    } else {
        ""
    }
}

/// Whether every byte is ASCII.
pub open spec fn is_ascii_bytes(b: Seq<u8>) -> bool {
    forall|i: int| 0 <= i < b.len() ==> #[trigger] b[i] < 128
}

/// The characters that a sequence of ASCII bytes spells.
pub open spec fn ascii_chars(b: Seq<u8>) -> Seq<char> {
    Seq::new(b.len(), |i: int| b[i] as char)
}

/// What `String::from_utf8_lossy` returns for given bytes: a function of the
/// bytes alone.
pub uninterp spec fn utf8_lossy(b: Seq<u8>) -> Seq<char>;

/// Relies on `String::from_utf8_lossy`: its result depends on the input
/// bytes alone, valid UTF-8 passes through unchanged, and ASCII bytes decode
/// to exactly their own characters.
#[verifier::external_body]
pub fn bytes_to_string_lossy(b: &Vec<u8>) -> (r: String)
    ensures
        r@ == utf8_lossy(b@),
        is_ascii_bytes(b@) ==> r@ == ascii_chars(b@),
{
    String::from_utf8_lossy(b).into_owned()
}

/// Compares a byte vector with the UTF-8 bytes of a string slice.
fn bytes_eq_str(text: &Vec<u8>, s: &str) -> (eq: bool)
    ensures
        eq == (text@ == s.spec_bytes()),
{
    let sb = s.as_bytes();
    if text.len() != sb.len() {
        proof {
            assert(text@ != s.spec_bytes());
        }
        return false;
    }
    let mut i: usize = 0;
    while i < text.len()
        invariant
            i <= text@.len(),
            text@.len() == sb@.len(),
            sb@ == s.spec_bytes(),
            forall|j: int| 0 <= j < i ==> text@[j] == sb@[j],
        decreases text@.len() - i,
    {
        if text[i] != *vstd::slice::slice_index_get(sb, i) {
            return false;
        }
        i += 1;
    }
    proof {
        assert(text@ =~= sb@);
    }
    true
}

/// Compares two byte vectors.
pub(crate) fn bytes_eq(a: &Vec<u8>, b: &Vec<u8>) -> (eq: bool)
    ensures
        eq == (a@ == b@),
{
    if a.len() != b.len() {
        proof {
            assert(a@ != b@);
        }
        return false;
    }
    let mut i: usize = 0;
    while i < a.len()
        invariant
            i <= a@.len(),
            a@.len() == b@.len(),
            forall|j: int| 0 <= j < i ==> a@[j] == b@[j],
        decreases a@.len() - i,
    {
        if a[i] != b[i] {
            return false;
        }
        i += 1;
    }
    proof {
        assert(a@ =~= b@);
    }
    true
}

/// The first standard string at or after position `i` whose bytes are
/// `text`, if any.
pub open spec fn spec_find_standard(text: Seq<u8>, i: int) -> Option<u16>
    decreases 391 - i,
{
    if i < 0 || i >= 391 {
        None
    } else if spec_standard_bytes(i) == text {
        Some(i as u16)
    } else {
        spec_find_standard(text, i + 1)
    }
}

/// The first custom string at or after position `j` whose bytes are `text`,
/// if any.
pub open spec fn spec_find_custom(elems: Seq<Seq<u8>>, text: Seq<u8>, j: int) -> Option<int>
    decreases elems.len() - j,
{
    if j < 0 || j >= elems.len() {
        None
    } else if elems[j] == text {
        Some(j)
    } else {
        spec_find_custom(elems, text, j + 1)
    }
}

/// Resolves a string identifier to its exact bytes: the standard string's
/// UTF-8 bytes below 391, the custom INDEX element at `id - 391` otherwise.
/// A custom identifier past the end of the INDEX fails with
/// `UnknownStringId`.
pub fn resolve_bytes(strings: &Index, id: StringId) -> (r: Result<Vec<u8>, CffError>)
    ensures
        match r {
            Ok(v) => id.0 < 391 && v@ == spec_standard_bytes(id.0 as int) || id.0 >= 391
                && spec_get(strings@, id.0 - 391) == Ok::<Seq<u8>, CffError>(v@),
            Err(e) => id.0 >= 391 && (match spec_get(strings@, id.0 - 391) {
                Ok(_) => false,
                Err(ge) => e == (if ge == CffError::IndexOutOfBounds {
                    CffError::UnknownStringId
                } else {
                    ge
                }),
            }),
        },
        id.0 < 391 ==> r is Ok,
        strings@.wf() ==> (r is Ok <==> id.0 < 391 + strings@.count),
{
    proof {
        if strings@.wf() && id.0 >= 391 && id.0 - 391 < strings@.count {
            lemma_get_wf(strings@, id.0 - 391);
        }
    }
    if id.0 < STANDARD_STRING_COUNT {
        let s = standard_string(id.0);
        let v = s.as_bytes_vec();
        Ok(v)
    } else {
        match strings.get((id.0 - 391) as usize) {
            Ok(v) => Ok(v),
            Err(CffError::IndexOutOfBounds) => Err(CffError::UnknownStringId),
            Err(e) => Err(e),
        }
    }
}

/// Resolves a string identifier to text. Standard strings resolve exactly;
/// custom strings go through `utf8_lossy`, whose result is pinned for ASCII
/// bytes. Fails with `UnknownStringId` exactly where `resolve_bytes` does.
pub fn resolve(strings: &Index, id: StringId) -> (r: Result<String, CffError>)
    ensures
        match r {
            Ok(s) => {
                &&& id.0 < 391 ==> s@ == spec_standard_string(id.0 as int)
                &&& id.0 >= 391 ==> (match spec_get(strings@, id.0 - 391) {
                    Ok(b) => s@ == utf8_lossy(b) && (is_ascii_bytes(b) ==> s@ == ascii_chars(b)),
                    Err(_) => false,
                })
            },
            Err(e) => id.0 >= 391 && (match spec_get(strings@, id.0 - 391) {
                Ok(_) => false,
                Err(ge) => e == (if ge == CffError::IndexOutOfBounds {
                    CffError::UnknownStringId
                } else {
                    ge
                }),
            }),
        },
        id.0 < 391 ==> r is Ok,
        strings@.wf() ==> (r is Ok <==> id.0 < 391 + strings@.count),
{
    proof {
        if strings@.wf() && id.0 >= 391 && id.0 - 391 < strings@.count {
            lemma_get_wf(strings@, id.0 - 391);
        }
    }
    if id.0 < STANDARD_STRING_COUNT {
        let s = standard_string(id.0);
        Ok(String::from_str(s))
    } else {
        match strings.get((id.0 - 391) as usize) {
            Ok(v) => Ok(bytes_to_string_lossy(&v)),
            Err(CffError::IndexOutOfBounds) => Err(CffError::UnknownStringId),
            Err(e) => Err(e),
        }
    }
}

/// Finds or adds a string, returning its identifier.
///
/// The text is matched first against the standard strings (the smallest
/// matching identifier wins), then against the existing custom strings, and
/// only if both fail is it appended, with identifier `391 + old count`. This
/// de-duplication keeps repeated mutate/save cycles from growing the custom
/// table. Fails with `LimitExceeded` exactly when the needed identifier or
/// the rebuilt INDEX would not fit the format.
#[verifier::loop_isolation(false)]
#[verifier::rlimit(100)]
pub fn allocate(strings: &mut Index, text: &Vec<u8>) -> (r: Result<StringId, CffError>)
    requires
        old(strings)@.wf(),
    ensures
        final(strings)@.wf(),
        match spec_find_standard(text@, 0) {
            Some(sid) => r == Ok::<StringId, CffError>(StringId(sid)) && final(strings)@
                == old(strings)@,
            None => match spec_find_custom(old(strings)@.elements(), text@, 0) {
                Some(j) => if 391 + j <= 65535 {
                    r == Ok::<StringId, CffError>(StringId((391 + j) as u16)) && final(strings)@
                        == old(strings)@
                } else {
                    r == Err::<StringId, CffError>(CffError::LimitExceeded) && final(strings)@
                        == old(strings)@
                },
                None => if 391 + old(strings)@.count <= 65535 && fits_index(
                    old(strings)@.elements().push(text@),
                ) {
                    &&& r == Ok::<StringId, CffError>(
                        StringId((391 + old(strings)@.count) as u16),
                    )
                    &&& final(strings)@.elements() =~= old(strings)@.elements().push(text@)
                    &&& final(strings)@.count == old(strings)@.count + 1
                } else {
                    r == Err::<StringId, CffError>(CffError::LimitExceeded) && final(strings)@
                        == old(strings)@
                },
            },
        },
{
    let ghost t = text@;
    let mut i: u16 = 0;
    while i < STANDARD_STRING_COUNT
        invariant
            i <= 391,
            spec_find_standard(t, i as int) == spec_find_standard(t, 0),
        decreases 391 - i,
    {
        let s = standard_string(i);
        if bytes_eq_str(text, s) {
            return Ok(StringId(i));
        }
        i += 1;
    }
    let ghost elems = strings@.elements();
    let count = strings.count as usize;
    let mut j: usize = 0;
    while j < count
        invariant
            j <= count,
            spec_find_custom(elems, t, j as int) == spec_find_custom(elems, t, 0),
        decreases count - j,
    {
        let ej = match strings.get(j) {
            Ok(ej) => ej,
            Err(_) => {
                proof {
                    lemma_get_wf(strings@, j as int);
                    assert(false);
                }
                return Err(CffError::LimitExceeded);
            },
        };
        proof {
            lemma_get_wf(strings@, j as int);
        }
        if bytes_eq(&ej, text) {
            if j > 65535 - 391 {
                return Err(CffError::LimitExceeded);
            }
            return Ok(StringId(391 + j as u16));
        }
        j += 1;
    }
    if count > 65535 - 391 {
        return Err(CffError::LimitExceeded);
    }
    let mut els: Vec<Vec<u8>> = Vec::new();
    let mut k: usize = 0;
    while k < count
        invariant
            k <= count,
            byte_views(els@) =~= elems.take(k as int),
        decreases count - k,
    {
        let ek = match strings.get(k) {
            Ok(ek) => ek,
            Err(_) => {
                proof {
                    lemma_get_wf(strings@, k as int);
                    assert(false);
                }
                return Err(CffError::LimitExceeded);
            },
        };
        proof {
            lemma_get_wf(strings@, k as int);
        }
        els.push(ek);
        proof {
            assert(byte_views(els@) =~= elems.take(k + 1));
        }
        k += 1;
    }
    let mut tcopy: Vec<u8> = Vec::new();
    crate::index::push_bytes(&mut tcopy, text);
    els.push(tcopy);
    proof {
        assert(elems.take(count as int) =~= elems);
        assert(byte_views(els@) =~= elems.push(t));
    }
    match Index::from_elements(&els) {
        Ok(idx) => {
            let sid = StringId(391 + strings.count);
            *strings = idx;
            Ok(sid)
        },
        Err(e) => Err(CffError::LimitExceeded),
    }
}

/// If no standard string from position `i` on matches, the search fails.
pub proof fn lemma_find_standard_none(text: Seq<u8>, i: int)
    requires
        forall|k: int| i <= k < 391 ==> spec_standard_bytes(k) != text,
    ensures
        spec_find_standard(text, i) is None,
    decreases 391 - i,
{
    if 0 <= i < 391 {
        lemma_find_standard_none(text, i + 1);
    }
}

/// If no custom string from position `j` on matches, the search fails.
pub proof fn lemma_find_custom_none(elems: Seq<Seq<u8>>, text: Seq<u8>, j: int)
    requires
        forall|k: int| j <= k < elems.len() ==> elems[k] != text,
    ensures
        spec_find_custom(elems, text, j) is None,
    decreases elems.len() - j,
{
    if 0 <= j < elems.len() {
        lemma_find_custom_none(elems, text, j + 1);
    }
}

} // verus!
